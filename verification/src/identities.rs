//! The targets of a package by the identity of their contents.

use vstd::prelude::*;

use crate::identity::{FileIdentity, IdentityView};
use crate::index::{lemma_positions, positions, KeyIndex};

verus! {

/// The key under which an identity is looked up.
pub open spec fn identity_key(identity: IdentityView) -> u64 {
    (identity.digest % 0x1_0000_0000_0000_0000) as u64
}

/// Computes the key under which an identity is looked up.
pub fn key_of(identity: &FileIdentity) -> (key: u64)
    ensures
        key == identity_key(identity@),
{
    (identity.digest % 0x1_0000_0000_0000_0000) as u64
}

/// The map that a list of entries stands for; a later entry replaces an earlier one.
pub open spec fn map_of(entries: Seq<(IdentityView, u64)>) -> Map<IdentityView, u64>
    decreases entries.len(),
{
    if entries.len() == 0 {
        Map::empty()
    } else {
        map_of(entries.drop_last()).insert(entries.last().0, entries.last().1)
    }
}

/// Whether no two entries have the same identity.
pub open spec fn distinct(entries: Seq<(IdentityView, u64)>) -> bool {
    forall|i: int, j: int|
        0 <= i < j < entries.len() ==> (#[trigger] entries[i]).0 != (#[trigger] entries[j]).0
}

/// Distinct entries are the map that they stand for.
pub proof fn lemma_map_of(entries: Seq<(IdentityView, u64)>)
    requires
        distinct(entries),
    ensures
        forall|i: int|
            0 <= i < entries.len() ==> {
                &&& map_of(entries).contains_key((#[trigger] entries[i]).0)
                &&& map_of(entries)[entries[i].0] == entries[i].1
            },
        forall|identity: IdentityView| #[trigger]
            map_of(entries).contains_key(identity) ==> exists|i: int|
                0 <= i < entries.len() && (#[trigger] entries[i]).0 == identity,
        map_of(entries).dom().finite(),
        map_of(entries).len() == entries.len(),
    decreases entries.len(),
{
    if entries.len() > 0 {
        let before = entries.drop_last();
        assert forall|i: int, j: int| 0 <= i < j < before.len() implies (#[trigger] before[i]).0 != (
        #[trigger] before[j]).0 by {
            assert(before[i] == entries[i] && before[j] == entries[j]);
        }
        lemma_map_of(before);
        let last = entries.last();
        assert(!map_of(before).contains_key(last.0)) by {
            if map_of(before).contains_key(last.0) {
                let i = choose|i: int| 0 <= i < before.len() && (#[trigger] before[i]).0 == last.0;
                assert(entries[i].0 == last.0);
                assert(entries[entries.len() - 1].0 == last.0);
            }
        }
        assert forall|i: int| 0 <= i < entries.len() implies map_of(entries).contains_key(
            (#[trigger] entries[i]).0,
        ) && map_of(entries)[entries[i].0] == entries[i].1 by {
            if i < before.len() {
                assert(before[i] == entries[i]);
                assert(entries[entries.len() - 1] == last);
            }
        }
        assert forall|identity: IdentityView| #[trigger]
            map_of(entries).contains_key(identity) implies exists|i: int|
            0 <= i < entries.len() && (#[trigger] entries[i]).0 == identity by {
            if identity == last.0 {
                assert(entries[entries.len() - 1].0 == identity);
            } else {
                let i = choose|i: int| 0 <= i < before.len() && (#[trigger] before[i]).0 == identity;
                assert(entries[i].0 == identity);
            }
        }
    } else {
        assert(map_of(entries).dom() =~= Set::<IdentityView>::empty());
    }
}

/// Replacing the value of an entry is inserting it again.
proof fn lemma_replace(entries: Seq<(IdentityView, u64)>, i: int, value: u64)
    requires
        distinct(entries),
        0 <= i < entries.len(),
    ensures
        distinct(entries.update(i, (entries[i].0, value))),
        map_of(entries.update(i, (entries[i].0, value))) == map_of(entries).insert(
            entries[i].0,
            value,
        ),
{
    let updated = entries.update(i, (entries[i].0, value));
    assert forall|a: int, b: int| 0 <= a < b < updated.len() implies (#[trigger] updated[a]).0 != (
    #[trigger] updated[b]).0 by {
        assert(entries[a].0 != entries[b].0);
    }
    lemma_map_of(entries);
    lemma_map_of(updated);
    let left = map_of(updated);
    let right = map_of(entries).insert(entries[i].0, value);
    assert forall|identity: IdentityView|
        #![trigger left.dom().contains(identity)]
        #![trigger right.dom().contains(identity)]
        #![trigger left[identity]]
        #![trigger right[identity]]
        left.dom().contains(identity) == right.dom().contains(identity) && (left.dom().contains(
            identity,
        ) ==> left[identity] == right[identity]) by {
        if left.contains_key(identity) {
            let k = choose|k: int| 0 <= k < updated.len() && (#[trigger] updated[k]).0 == identity;
            assert(entries[k].0 == identity);
            if k != i {
                assert(updated[k] == entries[k]);
                assert(entries[i].0 != identity) by {
                    if k < i {
                        assert(entries[k].0 != entries[i].0);
                    } else {
                        assert(entries[i].0 != entries[k].0);
                    }
                }
            }
        }
        if right.contains_key(identity) {
            if identity == entries[i].0 {
                assert(updated[i].0 == identity);
            } else {
                let k = choose|k: int|
                    0 <= k < entries.len() && (#[trigger] entries[k]).0 == identity;
                assert(updated[k].0 == identity);
            }
        }
    }
    assert(left =~= right);
}

/// Entries as mathematical values.
pub open spec fn entry_views(entries: Seq<(FileIdentity, u64)>) -> Seq<(IdentityView, u64)> {
    Seq::new(entries.len(), |i: int| (entries[i].0@, entries[i].1))
}

/// The keys of entries.
pub open spec fn entry_keys(entries: Seq<(IdentityView, u64)>) -> Seq<u64> {
    Seq::new(entries.len(), |i: int| identity_key(entries[i].0))
}

/// A map from identities to target identifiers.
pub struct IdentityMap {
    entries: Vec<(FileIdentity, u64)>,
    index: KeyIndex,
}

impl View for IdentityMap {
    type V = Map<IdentityView, u64>;

    closed spec fn view(&self) -> Map<IdentityView, u64> {
        map_of(entry_views(self.entries@))
    }
}

impl IdentityMap {
    /// Whether the index lists the entries, and no identity occurs twice.
    pub closed spec fn wf(self) -> bool {
        &&& self.index.wf()
        &&& self.index@ == entry_keys(entry_views(self.entries@))
        &&& distinct(entry_views(self.entries@))
    }

    /// The empty map.
    pub fn new() -> (map: Self)
        ensures
            map.wf(),
            map@ == Map::<IdentityView, u64>::empty(),
    {
        let map = IdentityMap { entries: Vec::new(), index: KeyIndex::new() };
        assert(entry_keys(entry_views(map.entries@)) == Seq::<u64>::empty());
        map
    }

    /// The entries, each once.
    pub fn entries(&self) -> (entries: &Vec<(FileIdentity, u64)>)
        requires
            self.wf(),
        ensures
            distinct(entry_views(entries@)),
            map_of(entry_views(entries@)) == self@,
    {
        &self.entries
    }

    /// Where an identity is.
    fn position(&self, identity: &FileIdentity) -> (result: Option<usize>)
        requires
            self.wf(),
        ensures
            match result {
                Some(i) => i < self.entries@.len() && self.entries@[i as int].0@ == identity@,
                None => forall|i: int|
                    0 <= i < self.entries@.len() ==> (#[trigger] self.entries@[i]).0@ != identity@,
            },
    {
        let key = key_of(identity);
        let total: usize = self.entries.len();
        let ghost views = entry_views(self.entries@);
        proof {
            lemma_positions(self.index@, key);
        }
        let found = self.index.find(key);
        let ghost listed = positions(self.index@, key);
        assert forall|i: int|
            0 <= i < self.entries@.len() && (#[trigger] self.entries@[i]).0@
                == identity@ implies listed.contains(i as usize) by {
            assert(views[i].0 == identity@);
            assert(self.index@[i] == key);
        }
        match found {
            None => None,
            Some(list) => {
                let mut k: usize = 0;
                while k < list.len()
                    invariant
                        self.wf(),
                        total == self.entries@.len(),
                        views == entry_views(self.entries@),
                        list@ == positions(self.index@, key),
                        k <= list@.len(),
                        forall|j: int|
                            0 <= j < k ==> self.entries@[#[trigger] list@[j] as int].0@ != identity@,
                    decreases list@.len() - k,
                {
                    proof {
                        lemma_positions(self.index@, key);
                    }
                    let position: usize = list[k];
                    assert(position < self.entries@.len());
                    if self.entries[position].0.same_as(identity) {
                        return Some(position);
                    }
                    k += 1;
                }
                assert forall|i: int| 0 <= i < self.entries@.len() implies (
                #[trigger] self.entries@[i]).0@ != identity@ by {
                    if self.entries@[i].0@ == identity@ {
                        let j = choose|j: int| 0 <= j < list@.len() && list@[j] == i as usize;
                        assert(self.entries@[list@[j] as int].0@ == identity@);
                    }
                }
                None
            },
        }
    }

    /// The value of an identity.
    pub fn get(&self, identity: &FileIdentity) -> (result: Option<u64>)
        requires
            self.wf(),
        ensures
            match result {
                Some(value) => self@.contains_key(identity@) && self@[identity@] == value,
                None => !self@.contains_key(identity@),
            },
    {
        let ghost views = entry_views(self.entries@);
        proof {
            lemma_map_of(views);
        }
        match self.position(identity) {
            Some(i) => {
                assert(views[i as int].0 == identity@);
                Some(self.entries[i].1)
            },
            None => {
                assert(!self@.contains_key(identity@)) by {
                    if self@.contains_key(identity@) {
                        let i = choose|i: int|
                            0 <= i < views.len() && (#[trigger] views[i]).0 == identity@;
                        assert(self.entries@[i].0@ == identity@);
                    }
                }
                None
            },
        }
    }

    /// Gives an identity a value.
    pub fn insert(&mut self, identity: FileIdentity, value: u64)
        requires
            old(self).wf(),
        ensures
            final(self).wf(),
            final(self)@ == old(self)@.insert(identity@, value),
    {
        let ghost views = entry_views(self.entries@);
        match self.position(&identity) {
            Some(i) => {
                proof {
                    lemma_replace(views, i as int, value);
                }
                self.entries.set(i, (identity, value));
                proof {
                    assert(entry_views(self.entries@) =~= views.update(
                        i as int,
                        (views[i as int].0, value),
                    ));
                    assert(entry_keys(entry_views(self.entries@)) =~= entry_keys(views));
                }
            },
            None => {
                self.index.add(key_of(&identity), self.entries.len());
                let ghost added = (identity@, value);
                self.entries.push((identity, value));
                proof {
                    let now = entry_views(self.entries@);
                    assert(now =~= views.push(added));
                    assert(now.drop_last() == views);
                    assert(entry_keys(now) =~= entry_keys(views).push(identity_key(added.0)));
                    assert forall|a: int, b: int| 0 <= a < b < now.len() implies (
                    #[trigger] now[a]).0 != (#[trigger] now[b]).0 by {
                        if b < views.len() {
                            assert(views[a].0 != views[b].0);
                        } else {
                            assert(old(self).entries@[a].0@ != identity@);
                        }
                    }
                }
            },
        }
    }
}

} // verus!
