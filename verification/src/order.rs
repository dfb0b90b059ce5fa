//! Orders, and sorting by them.

use vstd::multiset::Multiset;
use vstd::prelude::*;
use vstd::relations::total_ordering;
use vstd::utf8::*;

verus! {

/// The lexicographic order of sequences of numbers.
pub open spec fn seq_le(left: Seq<int>, right: Seq<int>) -> bool
    decreases left.len(),
{
    ||| left.len() == 0
    ||| {
        &&& right.len() > 0
        &&& {
            ||| left[0] < right[0]
            ||| left[0] == right[0] && seq_le(left.drop_first(), right.drop_first())
        }
    }
}

/// The lexicographic order of sequences of sequences.
pub open spec fn rows_le(left: Seq<Seq<int>>, right: Seq<Seq<int>>) -> bool
    decreases left.len(),
{
    ||| left.len() == 0
    ||| {
        &&& right.len() > 0
        &&& if left[0] == right[0] {
            rows_le(left.drop_first(), right.drop_first())
        } else {
            seq_le(left[0], right[0])
        }
    }
}

/// Bytes as numbers.
pub open spec fn numbers(bytes: Seq<u8>) -> Seq<int> {
    Seq::new(bytes.len(), |i: int| bytes[i] as int)
}

/// The order of texts by their bytes in UTF-8.
pub open spec fn text_le(left: Seq<char>, right: Seq<char>) -> bool {
    seq_le(numbers(encode_utf8(left)), numbers(encode_utf8(right)))
}

proof fn lemma_tail(left: Seq<int>, right: Seq<int>)
    requires
        left.len() > 0,
        right.len() > 0,
        left[0] == right[0],
        left.drop_first() == right.drop_first(),
    ensures
        left == right,
{
    assert(left.len() == left.drop_first().len() + 1);
    assert(right.len() == right.drop_first().len() + 1);
    assert forall|i: int| 0 <= i < left.len() implies left[i] == right[i] by {
        if i > 0 {
            assert(left.drop_first()[i - 1] == left[i]);
            assert(right.drop_first()[i - 1] == right[i]);
        }
    }
    assert(left =~= right);
}

/// Any two sequences are in order one way or the other, and both ways only where they are equal.
pub proof fn lemma_seq_le(left: Seq<int>, right: Seq<int>)
    ensures
        seq_le(left, right) || seq_le(right, left),
        seq_le(left, right) && seq_le(right, left) <==> left == right,
    decreases left.len(),
{
    if left.len() > 0 && right.len() > 0 {
        lemma_seq_le(left.drop_first(), right.drop_first());
        if left[0] == right[0] && left.drop_first() == right.drop_first() {
            lemma_tail(left, right);
        }
    } else if left.len() == 0 && right.len() == 0 {
        assert(left =~= right);
    }
}

/// The order of sequences is transitive.
pub proof fn lemma_seq_le_trans(a: Seq<int>, b: Seq<int>, c: Seq<int>)
    requires
        seq_le(a, b),
        seq_le(b, c),
    ensures
        seq_le(a, c),
    decreases a.len(),
{
    if a.len() > 0 && a[0] == b[0] && b[0] == c[0] {
        lemma_seq_le_trans(a.drop_first(), b.drop_first(), c.drop_first());
    }
}

/// Any two sequences of sequences are in order one way or the other.
pub proof fn lemma_rows_le(left: Seq<Seq<int>>, right: Seq<Seq<int>>)
    ensures
        rows_le(left, right) || rows_le(right, left),
    decreases left.len(),
{
    if left.len() > 0 && right.len() > 0 {
        lemma_rows_le(left.drop_first(), right.drop_first());
        lemma_seq_le(left[0], right[0]);
    }
}

/// The order of sequences of sequences is transitive.
pub proof fn lemma_rows_le_trans(a: Seq<Seq<int>>, b: Seq<Seq<int>>, c: Seq<Seq<int>>)
    requires
        rows_le(a, b),
        rows_le(b, c),
    ensures
        rows_le(a, c),
    decreases a.len(),
{
    if a.len() > 0 {
        lemma_seq_le(a[0], b[0]);
        lemma_seq_le(b[0], c[0]);
        lemma_seq_le(a[0], c[0]);
        if a[0] == b[0] && b[0] == c[0] {
            lemma_rows_le_trans(a.drop_first(), b.drop_first(), c.drop_first());
        } else if a[0] != b[0] && b[0] != c[0] {
            lemma_seq_le_trans(a[0], b[0], c[0]);
        }
    }
}

/// Any two texts are in order one way or the other, and both ways only where they are equal.
pub proof fn lemma_text_le(left: Seq<char>, right: Seq<char>)
    ensures
        text_le(left, right) || text_le(right, left),
        text_le(left, right) && text_le(right, left) <==> left == right,
{
    let l = encode_utf8(left);
    let r = encode_utf8(right);
    lemma_seq_le(numbers(l), numbers(r));
    if numbers(l) == numbers(r) {
        assert forall|i: int| 0 <= i < l.len() implies l[i] == r[i] by {
            assert(numbers(l)[i] == numbers(r)[i]);
        }
        assert(l.len() == numbers(l).len() && r.len() == numbers(r).len());
        assert(l =~= r);
        encode_utf8_decode_utf8(left);
        encode_utf8_decode_utf8(right);
    }
}

/// The order of texts is transitive.
pub proof fn lemma_text_le_trans(a: Seq<char>, b: Seq<char>, c: Seq<char>)
    requires
        text_le(a, b),
        text_le(b, c),
    ensures
        text_le(a, c),
{
    lemma_seq_le_trans(
        numbers(encode_utf8(a)),
        numbers(encode_utf8(b)),
        numbers(encode_utf8(c)),
    );
}

/// How one value stands to another.
#[derive(Clone, Copy, Debug, PartialEq, Eq, Structural)]
pub enum Side {
    Before,
    Same,
    Behind,
}

/// Whether this is how two byte strings stand to each other.
pub open spec fn is_side(left: Seq<u8>, right: Seq<u8>, side: Side) -> bool {
    match side {
        Side::Before => left != right && seq_le(numbers(left), numbers(right)),
        Side::Same => left == right,
        Side::Behind => left != right && seq_le(numbers(right), numbers(left)),
    }
}

/// How two byte strings stand to each other in lexicographic order.
pub fn side_of(left: &[u8], right: &[u8]) -> (side: Side)
    ensures
        is_side(left@, right@, side),
{
    let ghost l = numbers(left@);
    let ghost r = numbers(right@);
    let mut i: usize = 0;
    assert(l.skip(0) =~= l && r.skip(0) =~= r);
    while i < left.len() && i < right.len() && left[i] == right[i]
        invariant
            i <= left@.len(),
            i <= right@.len(),
            l == numbers(left@),
            r == numbers(right@),
            forall|j: int| 0 <= j < i ==> left@[j] == right@[j],
            seq_le(l, r) == seq_le(l.skip(i as int), r.skip(i as int)),
            seq_le(r, l) == seq_le(r.skip(i as int), l.skip(i as int)),
        decreases left@.len() - i,
    {
        assert(l.skip(i as int).drop_first() =~= l.skip(i + 1));
        assert(r.skip(i as int).drop_first() =~= r.skip(i + 1));
        i += 1;
    }
    if i == left.len() {
        if i == right.len() {
            assert(left@ =~= right@);
            Side::Same
        } else {
            Side::Before
        }
    } else if i == right.len() {
        Side::Behind
    } else if left[i] < right[i] {
        assert(left@[i as int] != right@[i as int]);
        Side::Before
    } else {
        assert(left@[i as int] != right@[i as int]);
        Side::Behind
    }
}

/// How two texts stand to each other.
pub fn side_of_texts(left: &str, right: &str) -> (side: Side)
    ensures
        match side {
            Side::Before => left@ != right@ && text_le(left@, right@),
            Side::Same => left@ == right@,
            Side::Behind => left@ != right@ && text_le(right@, left@),
        },
{
    let side = side_of(left.as_bytes(), right.as_bytes());
    proof {
        encode_utf8_decode_utf8(left@);
        encode_utf8_decode_utf8(right@);
    }
    side
}

/// A type whose values are in an order: of any two, one is at or before the other.
pub trait Ordered: Sized {
    /// Whether a value is at or before another.
    spec fn at_or_before(self, other: Self) -> bool;

    /// Any two values are in order one way or the other.
    proof fn lemma_total(left: Self, right: Self)
        ensures
            left.at_or_before(right) || right.at_or_before(left),
    ;

    /// The order is transitive.
    proof fn lemma_transitive(a: Self, b: Self, c: Self)
        requires
            a.at_or_before(b),
            b.at_or_before(c),
        ensures
            a.at_or_before(c),
    ;

    /// Whether a value is at or before another.
    fn is_at_or_before(&self, other: &Self) -> (result: bool)
        ensures
            result == self.at_or_before(*other),
    ;
}

/// Texts are ordered by their bytes.
impl Ordered for String {
    open spec fn at_or_before(self, other: Self) -> bool {
        text_le(self@, other@)
    }

    proof fn lemma_total(left: Self, right: Self) {
        lemma_text_le(left@, right@);
    }

    proof fn lemma_transitive(a: Self, b: Self, c: Self) {
        lemma_text_le_trans(a@, b@, c@);
    }

    fn is_at_or_before(&self, other: &Self) -> (result: bool) {
        proof {
            lemma_text_le(self@, other@);
        }
        match side_of_texts(self.as_str(), other.as_str()) {
            Side::Before => true,
            Side::Same => true,
            Side::Behind => false,
        }
    }
}

/// Whether values are in ascending order.
pub open spec fn ascending<T: Ordered>(items: Seq<T>) -> bool {
    forall|i: int, j: int|
        0 <= i < j < items.len() ==> (#[trigger] items[i]).at_or_before(#[trigger] items[j])
}

/// Merges two lists that are in order.
fn merge<T: Ordered>(left: Vec<T>, right: Vec<T>) -> (merged: Vec<T>)
    requires
        ascending(left@),
        ascending(right@),
    ensures
        ascending(merged@),
        merged@.to_multiset() == left@.to_multiset().add(right@.to_multiset()),
{
    broadcast use vstd::seq_lib::group_to_multiset_ensures;

    let ghost goal = left@.to_multiset().add(right@.to_multiset());
    let mut left = left;
    let mut right = right;
    // The largest come first here.
    let mut falling: Vec<T> = Vec::new();
    assert(falling@.to_multiset() =~= Multiset::<T>::empty());
    assert(goal =~= left@.to_multiset().add(right@.to_multiset()).add(falling@.to_multiset()));
    while left.len() > 0 || right.len() > 0
        invariant
            ascending(left@),
            ascending(right@),
            goal == left@.to_multiset().add(right@.to_multiset()).add(falling@.to_multiset()),
            forall|i: int, j: int|
                0 <= i < j < falling@.len() ==> (#[trigger] falling@[j]).at_or_before(
                    #[trigger] falling@[i],
                ),
            forall|i: int, k: int|
                0 <= i < left@.len() && 0 <= k < falling@.len() ==> (
                #[trigger] left@[i]).at_or_before(#[trigger] falling@[k]),
            forall|i: int, k: int|
                0 <= i < right@.len() && 0 <= k < falling@.len() ==> (
                #[trigger] right@[i]).at_or_before(#[trigger] falling@[k]),
        decreases left@.len() + right@.len(),
    {
        broadcast use vstd::seq_lib::group_to_multiset_ensures;

        let ghost before_left = left@;
        let ghost before_right = right@;
        let ghost before = falling@;
        let take_left: bool = if left.len() == 0 {
            false
        } else if right.len() == 0 {
            true
        } else {
            right[right.len() - 1].is_at_or_before(&left[left.len() - 1])
        };
        if take_left {
            let next = left.pop().unwrap();
            proof {
                assert(before_left =~= left@.push(next));
                assert forall|i: int| 0 <= i < right@.len() implies (
                #[trigger] right@[i]).at_or_before(next) by {
                    let last = right@[right@.len() - 1];
                    if i < right@.len() - 1 {
                        T::lemma_transitive(right@[i], last, next);
                    }
                }
                assert forall|i: int| 0 <= i < left@.len() implies (
                #[trigger] left@[i]).at_or_before(next) by {
                    assert(left@[i] == before_left[i]);
                    assert(before_left[before_left.len() - 1] == next);
                }
            }
            falling.push(next);
        } else {
            let next = right.pop().unwrap();
            proof {
                assert(before_right =~= right@.push(next));
                assert forall|i: int| 0 <= i < left@.len() implies (
                #[trigger] left@[i]).at_or_before(next) by {
                    let last = left@[left@.len() - 1];
                    T::lemma_total(last, next);
                    if i < left@.len() - 1 {
                        T::lemma_transitive(left@[i], last, next);
                    }
                }
                assert forall|i: int| 0 <= i < right@.len() implies (
                #[trigger] right@[i]).at_or_before(next) by {
                    assert(right@[i] == before_right[i]);
                    assert(before_right[before_right.len() - 1] == next);
                }
            }
            falling.push(next);
        }
        proof {
            let next = falling@.last();
            assert(falling@ =~= before.push(next));
            assert forall|i: int, j: int| 0 <= i < j < falling@.len() implies (
            #[trigger] falling@[j]).at_or_before(#[trigger] falling@[i]) by {
                if j == before.len() {
                    assert(falling@[i] == before[i]);
                    if take_left {
                        assert(before_left[before_left.len() - 1] == next);
                    } else {
                        assert(before_right[before_right.len() - 1] == next);
                    }
                } else {
                    assert(falling@[i] == before[i] && falling@[j] == before[j]);
                }
            }
            assert forall|i: int, k: int| 0 <= i < left@.len() && 0 <= k < falling@.len() implies (
            #[trigger] left@[i]).at_or_before(#[trigger] falling@[k]) by {
                if k < before.len() {
                    assert(falling@[k] == before[k] && left@[i] == before_left[i]);
                }
            }
            assert forall|i: int, k: int| 0 <= i < right@.len() && 0 <= k < falling@.len() implies (
            #[trigger] right@[i]).at_or_before(#[trigger] falling@[k]) by {
                if k < before.len() {
                    assert(falling@[k] == before[k] && right@[i] == before_right[i]);
                }
            }
            assert(goal =~= left@.to_multiset().add(right@.to_multiset()).add(
                falling@.to_multiset(),
            ));
        }
    }
    assert(left@.to_multiset().len() == 0 && right@.to_multiset().len() == 0);
    assert(left@ =~= Seq::<T>::empty() && right@ =~= Seq::<T>::empty());
    assert(goal =~= falling@.to_multiset());
    let mut merged: Vec<T> = Vec::new();
    assert(merged@.to_multiset() =~= Multiset::<T>::empty());
    while falling.len() > 0
        invariant
            ascending(merged@),
            goal =~= merged@.to_multiset().add(falling@.to_multiset()),
            forall|i: int, j: int|
                0 <= i < j < falling@.len() ==> (#[trigger] falling@[j]).at_or_before(
                    #[trigger] falling@[i],
                ),
            forall|i: int, k: int|
                0 <= i < merged@.len() && 0 <= k < falling@.len() ==> (
                #[trigger] merged@[i]).at_or_before(#[trigger] falling@[k]),
        decreases falling@.len(),
    {
        broadcast use vstd::seq_lib::group_to_multiset_ensures;

        let ghost before = falling@;
        let ghost start = merged@;
        let next = falling.pop().unwrap();
        merged.push(next);
        proof {
            assert(before =~= falling@.push(next));
            assert(before[before.len() - 1] == next);
            assert forall|i: int, j: int| 0 <= i < j < merged@.len() implies (
            #[trigger] merged@[i]).at_or_before(#[trigger] merged@[j]) by {
                if j < start.len() {
                    assert(merged@[i] == start[i] && merged@[j] == start[j]);
                } else {
                    assert(merged@[i] == start[i]);
                }
            }
            assert forall|i: int, k: int| 0 <= i < merged@.len() && 0 <= k < falling@.len() implies (
            #[trigger] merged@[i]).at_or_before(#[trigger] falling@[k]) by {
                assert(falling@[k] == before[k]);
                if i < start.len() {
                    assert(merged@[i] == start[i]);
                }
            }
        }
    }
    assert(falling@ =~= Seq::<T>::empty());
    assert(falling@.to_multiset().len() == 0);
    assert(goal =~= merged@.to_multiset());
    merged
}

/// Puts values into ascending order.
pub fn sort<T: Ordered>(items: Vec<T>) -> (sorted: Vec<T>)
    ensures
        ascending(sorted@),
        sorted@.to_multiset() == items@.to_multiset(),
        sorted@.len() == items@.len(),
    decreases items@.len(),
{
    broadcast use vstd::seq_lib::group_to_multiset_ensures;

    assert(items@.to_multiset().len() == items@.len());
    let total: usize = items.len();
    if total <= 1 {
        return items;
    }
    let middle: usize = total / 2;
    let mut left = items;
    let right = left.split_off(middle);
    proof {
        assert(items@ =~= left@ + right@);
        vstd::seq_lib::lemma_multiset_commutative(left@, right@);
    }
    let left = sort(left);
    let right = sort(right);
    let sorted = merge(left, right);
    assert(sorted@.to_multiset().len() == sorted@.len());
    sorted
}

/// The order of texts is a total order.
pub proof fn lemma_text_order()
    ensures
        total_ordering(|left: Seq<char>, right: Seq<char>| text_le(left, right)),
{
    let leq = |left: Seq<char>, right: Seq<char>| text_le(left, right);
    assert forall|x: Seq<char>| #[trigger] leq(x, x) by {
        lemma_text_le(x, x);
    }
    assert forall|x: Seq<char>, y: Seq<char>| #[trigger] leq(x, y) && #[trigger] leq(y, x) implies x
        == y by {
        lemma_text_le(x, y);
    }
    assert forall|x: Seq<char>, y: Seq<char>, z: Seq<char>| #[trigger]
        leq(x, y) && #[trigger] leq(y, z) implies leq(x, z) by {
        lemma_text_le_trans(x, y, z);
    }
    assert forall|x: Seq<char>, y: Seq<char>| #[trigger] leq(x, y) || #[trigger] leq(y, x) by {
        lemma_text_le(x, y);
    }
}

/// What is made of the same values, one by one, is the same.
pub proof fn lemma_mapped_multisets<A, B>(left: Seq<A>, right: Seq<A>, f: spec_fn(A) -> B)
    requires
        left.to_multiset() == right.to_multiset(),
    ensures
        left.map_values(f).to_multiset() == right.map_values(f).to_multiset(),
    decreases left.len(),
{
    broadcast use vstd::seq_lib::group_to_multiset_ensures;

    assert(left.to_multiset().len() == left.len());
    assert(right.to_multiset().len() == right.len());
    if left.len() == 0 {
        assert(left.map_values(f) =~= right.map_values(f));
    } else {
        let last = left.last();
        assert(left.contains(left[left.len() - 1]));
        assert(left.to_multiset().count(last) > 0);
        assert(right.contains(last));
        let j = choose|j: int| 0 <= j < right.len() && right[j] == last;
        let fewer = right.remove(j);
        assert(left.drop_last().push(last) =~= left);
        assert(left.to_multiset() == left.drop_last().to_multiset().insert(last));
        assert(fewer.to_multiset() == right.to_multiset().remove(last));
        assert(fewer.to_multiset() =~= left.drop_last().to_multiset());
        lemma_mapped_multisets(left.drop_last(), fewer, f);
        assert(left.map_values(f) =~= left.drop_last().map_values(f).push(f(last)));
        assert(right.map_values(f).remove(j) =~= fewer.map_values(f));
        let images = right.map_values(f);
        assert(images[j] == f(last));
        assert(images.remove(j).to_multiset() == images.to_multiset().remove(f(last)));
        assert(images.contains(f(last)));
        assert(images.to_multiset() =~= images.remove(j).to_multiset().insert(f(last)));
    }
}

} // verus!
