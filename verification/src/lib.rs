//! Verified core of an OpenGrep scanning worker.

pub mod client;
pub mod content;
pub mod engine;
pub mod error;
pub mod expansion;
pub mod findings;
pub mod identities;
pub mod identity;
pub mod index;
pub mod json;
pub mod laws;
pub mod models;
pub mod numbers;
pub mod order;
pub mod origin;
pub mod package;
pub mod path_order;
pub mod paths;
pub mod promises;
pub mod reuse;
pub mod rules;
pub mod scan;
pub mod text;
