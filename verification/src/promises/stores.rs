//! What holds of copies, sets and indexes.

use vstd::prelude::*;

use crate::identities::IdentityMap;
use crate::identity::FileIdentity;
use crate::index::{positions, KeyIndex, TextSet};
use crate::paths::copy_bytes;
use crate::promises::lists::{lemma_positions_where, lemma_same_positions, positions_where};
use crate::scan::copy_texts;
use crate::text::{chars_of, text_of, views};

verus! {

/// A copy has what was copied, all of it and in order; a text can be taken apart and put together.
pub proof fn law_copies_are_whole(
    bytes: &[u8],
    bytes_copy: Vec<u8>,
    texts: &[String],
    texts_copy: Vec<String>,
    text: &str,
    chars: Vec<char>,
    slice: &[char],
    again: String,
)
    requires
        call_ensures(copy_bytes, (bytes,), bytes_copy),
        call_ensures(copy_texts, (texts,), texts_copy),
        call_ensures(chars_of, (text,), chars),
        slice@ == chars@,
        call_ensures(text_of, (slice,), again),
    ensures
        bytes_copy@ == bytes@,
        views(texts_copy@) == views(texts@),
        chars@ == text@,
        again@ == text@,
{
}

/// A set has no text at first. Once a text is added it has that one too, and otherwise what it had.
pub proof fn law_sets_have_what_was_added(
    empty: TextSet,
    set: &mut TextSet,
    before: TextSet,
    after: TextSet,
    text: String,
    asked: &str,
    found_first: bool,
    found_before: bool,
    found: bool,
)
    requires
        call_ensures(TextSet::new, (), empty),
        *old(set) == before,
        *final(set) == after,
        call_ensures(TextSet::insert, (set, text), ()),
        call_ensures(TextSet::contains, (&empty, asked), found_first),
        call_ensures(TextSet::contains, (&before, asked), found_before),
        call_ensures(TextSet::contains, (&after, asked), found),
    ensures
        !found_first,
        found <==> found_before || asked@ == text@,
{
}

/// A map has nothing at first. Once an identity is added it has the new value, and every other one
/// what it had.
pub proof fn law_maps_have_the_last_value(
    empty: IdentityMap,
    map: &mut IdentityMap,
    before: IdentityMap,
    after: IdentityMap,
    identity: FileIdentity,
    value: u64,
    asked: &FileIdentity,
    found_first: Option<u64>,
    found_before: Option<u64>,
    found: Option<u64>,
)
    requires
        before.wf(),
        call_ensures(IdentityMap::new, (), empty),
        *old(map) == before,
        *final(map) == after,
        call_ensures(IdentityMap::insert, (map, identity, value), ()),
        call_ensures(IdentityMap::get, (&empty, asked), found_first),
        call_ensures(IdentityMap::get, (&before, asked), found_before),
        call_ensures(IdentityMap::get, (&after, asked), found),
    ensures
        after.wf(),
        found_first is None,
        asked@ == identity@ ==> found == Some(value),
        asked@ != identity@ ==> found == found_before,
{
}

proof fn lemma_key_positions(keys: Seq<u64>, key: u64)
    requires
        keys.len() <= usize::MAX,
    ensures
        positions(keys, key).map_values(|p: usize| p as int) == positions_where(
            keys.len(),
            |i: int| keys[i] == key,
        ),
    decreases keys.len(),
{
    let here = |i: int| keys[i] == key;
    lemma_positions_where(0, here);
    if keys.len() > 0 {
        let before = keys.drop_last();
        let n = before.len();
        let earlier = |i: int| before[i] == key;
        lemma_key_positions(before, key);
        lemma_positions_where(n, here);
        assert forall|i: int| 0 <= i < n implies #[trigger] earlier(i) == here(i) by {
            assert(before[i] == keys[i]);
        }
        lemma_same_positions(n, earlier, here);
        assert(keys[n as int] == keys.last());
    }
    assert(positions(keys, key).map_values(|p: usize| p as int) =~= positions_where(
        keys.len(),
        here,
    ));
}

/// An index has no key at first, and takes one key after another. It finds every position of a key,
/// in order.
pub proof fn law_indexes_find_every_position(
    empty: KeyIndex,
    index: &mut KeyIndex,
    key: u64,
    position: usize,
    other: &KeyIndex,
    asked: u64,
    found: Option<&Vec<usize>>,
)
    requires
        old(index).wf(),
        old(index)@.len() == position,
        other.wf(),
        other@.len() <= usize::MAX,
        call_ensures(KeyIndex::new, (), empty),
        call_ensures(KeyIndex::add, (index, key, position), ()),
        call_ensures(KeyIndex::find, (other, asked), found),
    ensures
        empty.wf(),
        empty@.len() == 0,
        final(index).wf(),
        final(index)@ == old(index)@.push(key),
        ({
            let listed = positions_where(other@.len(), |i: int| other@[i] == asked);
            match found {
                Some(list) => list@.map_values(|p: usize| p as int) == listed,
                None => listed.len() == 0,
            }
        }),
{
    lemma_key_positions(other@, asked);
}

} // verus!
