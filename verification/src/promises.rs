//! What the operations promise, each as a relation between what it is given and what it gives, or
//! between several of its calls.

pub mod expansion;
pub mod findings;
pub mod lists;
pub mod order;
pub mod package;
pub mod paths;
pub mod reach;
pub mod reuse;
pub mod scan;
pub mod stores;
pub mod texts;
pub mod values;
pub mod worker;
