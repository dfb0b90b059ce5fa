//! What holds of the orders of texts and paths.

use vstd::prelude::*;
use vstd::utf8::*;

use crate::order::{
    lemma_seq_le, lemma_text_le, numbers, rows_le, seq_le, side_of, side_of_texts, sort, text_le,
    Ordered, Side,
};
use crate::path_order::{components, path_at_or_before, path_le, start_of};
use crate::paths::{find_names, names, spans_of};

verus! {

/// Whether one byte string comes before another: they differ first where its byte is smaller, or it
/// is the start of the other.
pub open spec fn comes_first(left: Seq<u8>, right: Seq<u8>) -> bool {
    exists|k: int| #[trigger] comes_first_at(left, right, k)
}

/// Whether two byte strings are the same before a position, and one comes before the other there.
pub open spec fn comes_first_at(left: Seq<u8>, right: Seq<u8>, k: int) -> bool {
    &&& 0 <= k <= left.len()
    &&& k < right.len()
    &&& forall|i: int| 0 <= i < k ==> #[trigger] left[i] == right[i]
    &&& k == left.len() || left[k] < right[k]
}

proof fn lemma_first_difference(left: Seq<int>, right: Seq<int>, k: int)
    requires
        0 <= k <= left.len(),
        k <= right.len(),
        forall|i: int| 0 <= i < k ==> #[trigger] left[i] == right[i],
    ensures
        k == left.len() ==> seq_le(left, right),
        k < left.len() && k == right.len() ==> !seq_le(left, right),
        k < left.len() && k < right.len() && left[k] != right[k] ==> (seq_le(left, right)
            <==> left[k] < right[k]),
    decreases k,
{
    if k > 0 {
        let l = left.drop_first();
        let r = right.drop_first();
        assert forall|i: int| 0 <= i < k - 1 implies #[trigger] l[i] == r[i] by {
            assert(left[i + 1] == right[i + 1]);
        }
        lemma_first_difference(l, r, k - 1);
        assert(left[0] == right[0]);
    }
}

proof fn lemma_difference_exists(left: Seq<u8>, right: Seq<u8>) -> (k: int)
    ensures
        0 <= k <= left.len(),
        k <= right.len(),
        forall|i: int| 0 <= i < k ==> #[trigger] left[i] == right[i],
        k == left.len() || k == right.len() || left[k] != right[k],
    decreases left.len(),
{
    if left.len() == 0 || right.len() == 0 || left[0] != right[0] {
        0
    } else {
        let l = left.drop_first();
        let r = right.drop_first();
        let k = lemma_difference_exists(l, r);
        assert forall|i: int| 0 <= i < k + 1 implies #[trigger] left[i] == right[i] by {
            if i > 0 {
                assert(l[i - 1] == r[i - 1]);
            }
        }
        k + 1
    }
}

pub proof fn lemma_bytes_le(left: Seq<u8>, right: Seq<u8>)
    ensures
        seq_le(numbers(left), numbers(right)) <==> left == right || comes_first(left, right),
        !(left == right && comes_first(left, right)),
{
    let l = numbers(left);
    let r = numbers(right);
    let k = lemma_difference_exists(left, right);
    assert forall|i: int| 0 <= i < k implies #[trigger] l[i] == r[i] by {
        assert(left[i] == right[i]);
    }
    lemma_first_difference(l, r, k);
    if seq_le(l, r) {
        if k == left.len() && k == right.len() {
            assert(left =~= right);
        } else {
            assert(comes_first_at(left, right, k));
        }
    }
    if left == right {
        lemma_seq_le(l, r);
        if comes_first(left, right) {
            let j = choose|j: int| #[trigger] comes_first_at(left, right, j);
        }
    } else if comes_first(left, right) {
        let j = choose|j: int| #[trigger] comes_first_at(left, right, j);
        if j < k {
            assert(left[j] == right[j]);
        } else if k < j {
            assert(left[k] == right[k]);
        }
        assert(j == k);
    }
}

/// Byte strings are ordered by the first byte in which they differ, and one that is the start of
/// another comes before it.
pub proof fn law_bytes_are_ordered_by_the_first_difference(
    left: &[u8],
    right: &[u8],
    side: Side,
)
    requires
        call_ensures(side_of, (left, right), side),
    ensures
        side is Before <==> comes_first(left@, right@),
        side is Same <==> left@ == right@,
        side is Behind <==> comes_first(right@, left@),
{
    lemma_bytes_le(left@, right@);
    lemma_bytes_le(right@, left@);
    lemma_seq_le(numbers(left@), numbers(right@));
    if numbers(left@) == numbers(right@) {
        assert forall|i: int| 0 <= i < left@.len() implies left@[i] == right@[i] by {
            assert(numbers(left@)[i] == numbers(right@)[i]);
        }
        assert(numbers(left@).len() == numbers(right@).len());
        assert(left@ =~= right@);
    }
}

/// Texts are ordered by their bytes.
pub proof fn law_texts_are_ordered_by_their_bytes(left: &str, right: &str, side: Side)
    requires
        call_ensures(side_of_texts, (left, right), side),
    ensures
        side is Same <==> left@ == right@,
        side is Before <==> comes_first(encode_utf8(left@), encode_utf8(right@)),
        side is Behind <==> comes_first(encode_utf8(right@), encode_utf8(left@)),
        text_le(left@, right@) <==> left@ == right@ || comes_first(
            encode_utf8(left@),
            encode_utf8(right@),
        ),
{
    let l = encode_utf8(left@);
    let r = encode_utf8(right@);
    lemma_bytes_le(l, r);
    lemma_bytes_le(r, l);
    lemma_text_le(left@, right@);
    encode_utf8_decode_utf8(left@);
    encode_utf8_decode_utf8(right@);
}

/// Sorting gives the same items, each as often, in order.
pub proof fn law_sorting_keeps_the_items<T: Ordered>(items: Vec<T>, sorted: Vec<T>)
    requires
        call_ensures(sort::<T>, (items,), sorted),
    ensures
        sorted@.to_multiset() == items@.to_multiset(),
        sorted@.len() == items@.len(),
        forall|i: int, j: int|
            0 <= i < j < sorted@.len() ==> (#[trigger] sorted@[i]).at_or_before(
                #[trigger] sorted@[j],
            ),
{
}

proof fn lemma_rows_difference(left: Seq<Seq<int>>, right: Seq<Seq<int>>, k: int)
    requires
        0 <= k <= left.len(),
        k <= right.len(),
        forall|i: int| 0 <= i < k ==> #[trigger] left[i] == right[i],
    ensures
        k == left.len() ==> rows_le(left, right),
        k < left.len() && k == right.len() ==> !rows_le(left, right),
        k < left.len() && k < right.len() && left[k] != right[k] ==> (rows_le(left, right)
            <==> seq_le(left[k], right[k])),
    decreases k,
{
    if k > 0 {
        let l = left.drop_first();
        let r = right.drop_first();
        assert forall|i: int| 0 <= i < k - 1 implies #[trigger] l[i] == r[i] by {
            assert(left[i + 1] == right[i + 1]);
        }
        lemma_rows_difference(l, r, k - 1);
        assert(left[0] == right[0]);
    }
}

/// How a path starts: at the root, with a segment that is a dot, or otherwise.
pub open spec fn start_rank(path: Seq<u8>) -> int {
    if path.len() > 0 && path[0] == 47 {
        0
    } else if path.len() > 0 && path[0] == 46 && (path.len() == 1 || path[1] == 47) {
        1
    } else {
        2
    }
}

/// The name at a span.
pub open spec fn name_of(path: Seq<u8>, spans: Seq<(usize, usize)>, i: int) -> Seq<u8> {
    path.subrange(spans[i].0 as int, spans[i].1 as int)
}

/// Whether one name comes before another in the order of paths: the one that leads up first, and
/// the others by their bytes.
pub open spec fn name_comes_first(left: Seq<u8>, right: Seq<u8>) -> bool {
    let up = seq![46u8, 46u8];
    left != right && (left == up || right != up && comes_first(left, right))
}

proof fn lemma_name_components(left: Seq<u8>, right: Seq<u8>)
    ensures
        ({
            let l = crate::path_order::name_component(left);
            let r = crate::path_order::name_component(right);
            &&& l == r <==> left == right
            &&& left != right ==> (seq_le(l, r) <==> name_comes_first(left, right))
        }),
{
    let up = seq![46u8, 46u8];
    let l = crate::path_order::name_component(left);
    let r = crate::path_order::name_component(right);
    lemma_bytes_le(left, right);
    if left != up && right != up {
        assert(l.drop_first() =~= numbers(left));
        assert(r.drop_first() =~= numbers(right));
        if l == r {
            assert(numbers(left).len() == numbers(right).len());
            assert forall|i: int| 0 <= i < left.len() implies left[i] == right[i] by {
                assert(numbers(left)[i] == numbers(right)[i]);
            }
            assert(left =~= right);
        }
    } else if left != up {
        assert(l[0] == 3 && r[0] == 2);
    } else if right != up {
        assert(l[0] == 2 && r[0] == 3);
    }
}

/// Paths are ordered by how they start, and then by the first name in which they differ; a path of
/// which all names are the first of another comes before it.
pub proof fn law_paths_are_ordered_by_their_names(
    left: &[u8],
    right: &[u8],
    left_names: Vec<(usize, usize)>,
    right_names: Vec<(usize, usize)>,
    k: int,
    result: bool,
)
    requires
        call_ensures(path_at_or_before, (left, right), result),
        call_ensures(find_names, (left,), left_names),
        call_ensures(find_names, (right,), right_names),
        0 <= k <= left_names@.len(),
        k <= right_names@.len(),
        forall|i: int|
            0 <= i < k ==> #[trigger] name_of(left@, left_names@, i) == name_of(
                right@,
                right_names@,
                i,
            ),
    ensures
        result == path_le(left@, right@),
        start_rank(left@) != start_rank(right@) && (start_rank(left@) < 2 || left_names@.len() > 0)
            && (start_rank(right@) < 2 || right_names@.len() > 0) ==> (result <==> start_rank(left@)
            < start_rank(right@)),
        start_rank(left@) == start_rank(right@) && k == left_names@.len() ==> result,
        start_rank(left@) == start_rank(right@) && k < left_names@.len() && k
            == right_names@.len() ==> !result,
        start_rank(left@) == start_rank(right@) && k < left_names@.len() && k < right_names@.len()
            && name_of(left@, left_names@, k) != name_of(right@, right_names@, k) ==> (result
            <==> name_comes_first(
            name_of(left@, left_names@, k),
            name_of(right@, right_names@, k),
        )),
{
    let l = components(left@);
    let r = components(right@);
    let s = start_of(left@).len() as int;
    assert(names(left@, 0) == spans_of(left_names@));
    assert(names(right@, 0) == spans_of(right_names@));
    assert forall|i: int| 0 <= i < left_names@.len() implies l[s + i]
        == crate::path_order::name_component(#[trigger] name_of(left@, left_names@, i)) by {
        assert(names(left@, 0)[i] == spans_of(left_names@)[i]);
    }
    let t = start_of(right@).len() as int;
    assert forall|i: int| 0 <= i < right_names@.len() implies r[t + i]
        == crate::path_order::name_component(#[trigger] name_of(right@, right_names@, i)) by {
        assert(names(right@, 0)[i] == spans_of(right_names@)[i]);
    }
    if start_rank(left@) == start_rank(right@) {
        assert(s == t);
        assert forall|i: int| 0 <= i < s + k implies #[trigger] l[i] == r[i] by {
            if i >= s {
                let j = i - s;
                assert(name_of(left@, left_names@, j) == name_of(right@, right_names@, j));
                assert(l[s + j] == crate::path_order::name_component(
                    name_of(left@, left_names@, j),
                ));
            }
        }
        lemma_rows_difference(l, r, s + k);
        if k < left_names@.len() && k < right_names@.len() {
            lemma_name_components(
                name_of(left@, left_names@, k),
                name_of(right@, right_names@, k),
            );
        }
    } else {
        lemma_rows_difference(l, r, 0);
        if (start_rank(left@) < 2 || left_names@.len() > 0) && (start_rank(right@) < 2
            || right_names@.len() > 0) {
            if s == 0 {
                assert(l[0] == crate::path_order::name_component(name_of(left@, left_names@, 0)));
                assert(l[0][0] >= 2);
            } else {
                assert(l[0][0] == start_rank(left@));
            }
            if t == 0 {
                assert(r[0] == crate::path_order::name_component(
                    name_of(right@, right_names@, 0),
                ));
                assert(r[0][0] >= 2);
            } else {
                assert(r[0][0] == start_rank(right@));
            }
        }
    }
}

} // verus!
