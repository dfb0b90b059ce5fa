//! Finding values by key without looking at all of them.

use std::collections::HashMap;

use vstd::hash_set::StringHashSet;
use vstd::prelude::*;

verus! {

broadcast use vstd::std_specs::hash::group_hash_axioms;

/// Where a key occurs in a sequence of keys, in rising order.
pub open spec fn positions(keys: Seq<u64>, key: u64) -> Seq<usize>
    decreases keys.len(),
{
    if keys.len() == 0 {
        Seq::empty()
    } else {
        let before = positions(keys.drop_last(), key);
        if keys.last() == key {
            before.push((keys.len() - 1) as usize)
        } else {
            before
        }
    }
}

/// The positions of a key are the indices that hold it, and no others.
pub proof fn lemma_positions(keys: Seq<u64>, key: u64)
    requires
        keys.len() <= usize::MAX,
    ensures
        forall|k: int|
            0 <= k < positions(keys, key).len() ==> {
                &&& 0 <= #[trigger] positions(keys, key)[k] < keys.len()
                &&& keys[positions(keys, key)[k] as int] == key
            },
        forall|i: int|
            0 <= i < keys.len() && #[trigger] keys[i] == key ==> positions(keys, key).contains(
                i as usize,
            ),
    decreases keys.len(),
{
    if keys.len() > 0 {
        let shorter = keys.drop_last();
        lemma_positions(shorter, key);
        let before = positions(shorter, key);
        let all = positions(keys, key);
        assert forall|i: int| 0 <= i < keys.len() && #[trigger] keys[i] == key implies all.contains(
            i as usize,
        ) by {
            if i == keys.len() - 1 {
                assert(all.last() == i as usize);
            } else {
                assert(shorter[i] == key);
                let k = choose|k: int| 0 <= k < before.len() && before[k] == i as usize;
                assert(all[k] == i as usize);
            }
        }
        assert forall|k: int| 0 <= k < all.len() implies 0 <= #[trigger] all[k] < keys.len()
            && keys[all[k] as int] == key by {
            if k < before.len() {
                assert(all[k] == before[k]);
                assert(shorter[before[k] as int] == key);
            }
        }
    }
}

/// The positions of keys that were added one after another.
pub struct KeyIndex {
    buckets: HashMap<u64, Vec<usize>>,
    keys: Ghost<Seq<u64>>,
}

impl View for KeyIndex {
    type V = Seq<u64>;

    closed spec fn view(&self) -> Seq<u64> {
        self.keys@
    }
}

impl KeyIndex {
    /// Whether every key is listed with exactly its positions.
    pub closed spec fn wf(self) -> bool {
        &&& forall|key: u64| #[trigger]
            self.buckets@.contains_key(key) ==> self.buckets@[key]@ == positions(self@, key)
        &&& forall|key: u64|
            !#[trigger] self.buckets@.contains_key(key) ==> positions(self@, key).len() == 0
    }

    /// An index without keys.
    pub fn new() -> (index: Self)
        ensures
            index.wf(),
            index@ == Seq::<u64>::empty(),
    {
        KeyIndex { buckets: HashMap::new(), keys: Ghost(Seq::empty()) }
    }

    /// Adds a key at the next position, which is given.
    pub fn add(&mut self, key: u64, position: usize)
        requires
            old(self).wf(),
            old(self)@.len() == position,
        ensures
            final(self).wf(),
            final(self)@ == old(self)@.push(key),
    {
        let mut bucket = match self.buckets.remove(&key) {
            Some(bucket) => bucket,
            None => Vec::new(),
        };
        assert(bucket@ == positions(old(self)@, key));
        bucket.push(position);
        self.buckets.insert(key, bucket);
        self.keys = Ghost(self.keys@.push(key));
        assert(self@.drop_last() == old(self)@);
        assert forall|other: u64| #[trigger] self.buckets@.contains_key(other) implies self.buckets@[other]@
            == positions(self@, other) by {
            if other != key {
                assert(old(self).buckets@.contains_key(other));
            }
        }
        assert forall|other: u64| !#[trigger] self.buckets@.contains_key(other) implies positions(
            self@,
            other,
        ).len() == 0 by {
            assert(!old(self).buckets@.contains_key(other));
        }
    }

    /// The positions of a key.
    pub fn find(&self, key: u64) -> (found: Option<&Vec<usize>>)
        requires
            self.wf(),
        ensures
            match found {
                Some(list) => list@ == positions(self@, key),
                None => positions(self@, key).len() == 0,
            },
    {
        self.buckets.get(&key)
    }
}

/// A set of texts.
pub struct TextSet {
    texts: StringHashSet,
}

impl View for TextSet {
    type V = Set<Seq<char>>;

    closed spec fn view(&self) -> Set<Seq<char>> {
        self.texts@
    }
}

impl TextSet {
    /// The empty set.
    pub fn new() -> (set: Self)
        ensures
            set@ == Set::<Seq<char>>::empty(),
    {
        TextSet { texts: StringHashSet::new() }
    }

    /// Whether a text is in the set.
    pub fn contains(&self, text: &str) -> (found: bool)
        ensures
            found == self@.contains(text@),
    {
        self.texts.contains(text)
    }

    /// Adds a text.
    pub fn insert(&mut self, text: String)
        ensures
            final(self)@ == old(self)@.insert(text@),
    {
        self.texts.insert(text);
    }
}

} // verus!
