//! The order of paths, component by component.

use vstd::prelude::*;

use crate::order::{
    lemma_rows_le, lemma_rows_le_trans, lemma_seq_le, numbers, rows_le, seq_le, side_of, Ordered,
    Side,
};
use crate::paths::{
    find_names, has_root, lemma_names_are_names, name_at, names, spans_of, starts_here, DOT, SLASH,
};

verus! {

/// What a component is ordered by: its rank and, where it is the name of an entry, the name.
pub open spec fn component(rank: int, name: Seq<u8>) -> Seq<int> {
    seq![rank] + numbers(name)
}

/// What a name in a path is ordered by: `..` is before the names of entries.
pub open spec fn name_component(name: Seq<u8>) -> Seq<int> {
    if name == seq![DOT, DOT] {
        component(2, Seq::empty())
    } else {
        component(3, name)
    }
}

/// What the start of a path is ordered by: the root is before `.`, and both are before names.
pub open spec fn start_of(path: Seq<u8>) -> Seq<Seq<int>> {
    if has_root(path) {
        seq![component(0, Seq::empty())]
    } else if starts_here(path) {
        seq![component(1, Seq::empty())]
    } else {
        Seq::empty()
    }
}

/// What a path is ordered by.
pub open spec fn components(path: Seq<u8>) -> Seq<Seq<int>> {
    start_of(path) + Seq::new(
        names(path, 0).len(),
        |i: int| name_component(name_at(path, names(path, 0)[i])),
    )
}

/// The order of paths: by their first component, then by the second, and so on.
pub open spec fn path_le(left: Seq<u8>, right: Seq<u8>) -> bool {
    rows_le(components(left), components(right))
}

/// A path taken apart.
struct Parts<'a> {
    path: &'a [u8],
    start: Option<u8>,
    spans: Vec<(usize, usize)>,
}

impl<'a> Parts<'a> {
    spec fn wf(self) -> bool {
        &&& spans_of(self.spans@) == names(self.path@, 0)
        &&& match self.start {
            None => start_of(self.path@) == Seq::<Seq<int>>::empty(),
            Some(rank) => start_of(self.path@) == seq![component(rank as int, Seq::empty())],
        }
    }

    fn new(path: &'a [u8]) -> (parts: Self)
        ensures
            parts.wf(),
            parts.path@ == path@,
    {
        let start: Option<u8> = if path.len() == 0 {
            None
        } else if path[0] == SLASH {
            Some(0)
        } else if path[0] == DOT && (path.len() == 1 || path[1] == SLASH) {
            Some(1)
        } else {
            None
        };
        Parts { path, start, spans: find_names(path) }
    }

    /// How many components there are besides a start.
    fn named(&self) -> (count: usize)
        requires
            self.wf(),
        ensures
            components(self.path@).len() == count + start_of(self.path@).len(),
            count == self.spans@.len(),
    {
        let count: usize = self.spans.len();
        assert(names(self.path@, 0).len() == count) by {
            assert(spans_of(self.spans@).len() == count);
        }
        count
    }

    /// The name at an index.
    fn name(&self, index: usize) -> (result: (u8, &'a [u8]))
        requires
            self.wf(),
            index < self.spans@.len(),
        ensures
            components(self.path@)[start_of(self.path@).len() + index] == component(
                result.0 as int,
                result.1@,
            ),
    {
        let (from, end) = self.spans[index];
        let ghost span = names(self.path@, 0)[index as int];
        proof {
            lemma_names_are_names(self.path@, 0);
            assert(spans_of(self.spans@)[index as int] == (from as int, end as int));
        }
        let name = vstd::slice::slice_subrange(self.path, from, end);
        assert(name@ == name_at(self.path@, span));
        assert(components(self.path@)[start_of(self.path@).len() + index] == name_component(
            name@,
        ));
        if name.len() == 2 && name[0] == DOT && name[1] == DOT {
            assert(name@ =~= seq![DOT, DOT]);
            let empty = vstd::slice::slice_subrange(self.path, from, from);
            assert(empty@ =~= Seq::<u8>::empty());
            (2, empty)
        } else {
            assert(name@ != seq![DOT, DOT]) by {
                if name@ == seq![DOT, DOT] {
                    assert(name@[0] == DOT && name@[1] == DOT);
                }
            }
            (3, name)
        }
    }
}

/// The order of two components.
proof fn lemma_component(left_rank: int, left: Seq<u8>, right_rank: int, right: Seq<u8>)
    ensures
        component(left_rank, left) == component(right_rank, right) <==> left_rank == right_rank
            && left == right,
        seq_le(component(left_rank, left), component(right_rank, right)) == (left_rank < right_rank
            || left_rank == right_rank && seq_le(numbers(left), numbers(right))),
{
    let l = component(left_rank, left);
    let r = component(right_rank, right);
    assert(l.drop_first() =~= numbers(left));
    assert(r.drop_first() =~= numbers(right));
    assert(l[0] == left_rank && r[0] == right_rank);
    if l == r {
        assert(numbers(left) == numbers(right));
        assert(left.len() == numbers(left).len() && right.len() == numbers(right).len());
        assert forall|i: int| 0 <= i < left.len() implies left[i] == right[i] by {
            assert(numbers(left)[i] == numbers(right)[i]);
        }
        assert(left =~= right);
    }
}

/// How two components stand to each other.
fn side_of_components(left: (u8, &[u8]), right: (u8, &[u8])) -> (side: Side)
    ensures
        ({
            let l = component(left.0 as int, left.1@);
            let r = component(right.0 as int, right.1@);
            match side {
                Side::Before => l != r && seq_le(l, r),
                Side::Same => l == r,
                Side::Behind => l != r && seq_le(r, l),
            }
        }),
{
    proof {
        lemma_component(left.0 as int, left.1@, right.0 as int, right.1@);
        lemma_component(right.0 as int, right.1@, left.0 as int, left.1@);
    }
    if left.0 < right.0 {
        Side::Before
    } else if left.0 > right.0 {
        Side::Behind
    } else {
        side_of(left.1, right.1)
    }
}

/// Whether a path is at or before another.
pub fn path_at_or_before(left: &[u8], right: &[u8]) -> (result: bool)
    ensures
        result == path_le(left@, right@),
{
    let ghost l = components(left@);
    let ghost r = components(right@);
    let left_parts = Parts::new(left);
    let right_parts = Parts::new(right);
    let left_named: usize = left_parts.named();
    let right_named: usize = right_parts.named();
    let ghost left_start = start_of(left@).len() as int;
    let ghost right_start = start_of(right@).len() as int;
    let empty: &[u8] = vstd::slice::slice_subrange(left, 0, 0);
    assert(empty@ =~= Seq::<u8>::empty());
    match (left_parts.start, right_parts.start) {
        (Some(left_rank), Some(right_rank)) => {
            assert(l[0] == component(left_rank as int, Seq::empty()));
            assert(r[0] == component(right_rank as int, Seq::empty()));
            match side_of_components((left_rank, empty), (right_rank, empty)) {
                Side::Before => return true,
                Side::Behind => {
                    proof {
                        lemma_seq_le(l[0], r[0]);
                    }
                    return false;
                },
                Side::Same => {},
            }
            assert(l.drop_first() =~= l.skip(1));
            assert(r.drop_first() =~= r.skip(1));
        },
        (Some(left_rank), None) => {
            assert(l[0] == component(left_rank as int, Seq::empty()));
            if right_named == 0 {
                return false;
            }
            let first = right_parts.name(0);
            match side_of_components((left_rank, empty), first) {
                Side::Before => return true,
                Side::Behind => {
                    proof {
                        lemma_seq_le(l[0], r[0]);
                    }
                    return false;
                },
                Side::Same => {
                    proof {
                        lemma_component(left_rank as int, empty@, first.0 as int, first.1@);
                        lemma_ranks(left@, right@);
                    }
                    return true;
                },
            }
        },
        (None, Some(right_rank)) => {
            assert(r[0] == component(right_rank as int, Seq::empty()));
            if left_named == 0 {
                return true;
            }
            let first = left_parts.name(0);
            match side_of_components(first, (right_rank, empty)) {
                Side::Before => return true,
                Side::Behind => {
                    proof {
                        lemma_seq_le(l[0], r[0]);
                    }
                    return false;
                },
                Side::Same => {
                    proof {
                        lemma_component(first.0 as int, first.1@, right_rank as int, empty@);
                        lemma_ranks(right@, left@);
                    }
                    return true;
                },
            }
        },
        (None, None) => {
            assert(l.skip(0) =~= l);
            assert(r.skip(0) =~= r);
        },
    }
    let mut i: usize = 0;
    while i < left_named
        invariant
            l == components(left@),
            r == components(right@),
            left_parts.wf(),
            right_parts.wf(),
            left_parts.path@ == left@,
            right_parts.path@ == right@,
            left_named == left_parts.spans@.len(),
            right_named == right_parts.spans@.len(),
            left_start == start_of(left@).len(),
            right_start == start_of(right@).len(),
            l.len() == left_start + left_named,
            r.len() == right_start + right_named,
            i <= left_named,
            i <= right_named,
            rows_le(l, r) == rows_le(l.skip(left_start + i), r.skip(right_start + i)),
        decreases left_named - i,
    {
        let ghost ls = l.skip(left_start + i);
        let ghost rs = r.skip(right_start + i);
        if i == right_named {
            return false;
        }
        let here = left_parts.name(i);
        let there = right_parts.name(i);
        assert(ls[0] == component(here.0 as int, here.1@));
        assert(rs[0] == component(there.0 as int, there.1@));
        match side_of_components(here, there) {
            Side::Before => return true,
            Side::Behind => {
                proof {
                    lemma_seq_le(ls[0], rs[0]);
                }
                return false;
            },
            Side::Same => {},
        }
        assert(ls.drop_first() =~= l.skip(left_start + i + 1));
        assert(rs.drop_first() =~= r.skip(right_start + i + 1));
        i += 1;
    }
    true
}

/// The start of a path is no name.
proof fn lemma_ranks(with_start: Seq<u8>, without: Seq<u8>)
    requires
        start_of(with_start).len() == 1,
        start_of(without).len() == 0,
        components(without).len() > 0,
    ensures
        components(with_start)[0] != components(without)[0],
{
    let name = name_at(without, names(without, 0)[0]);
    assert(components(without)[0] == name_component(name));
    assert(components(with_start)[0] == start_of(with_start)[0]);
    lemma_component(0, Seq::empty(), 2, Seq::empty());
    lemma_component(1, Seq::empty(), 2, Seq::empty());
    lemma_component(0, Seq::empty(), 3, name);
    lemma_component(1, Seq::empty(), 3, name);
}

/// Byte strings are ordered as the paths that they are.
impl Ordered for Vec<u8> {
    open spec fn at_or_before(self, other: Self) -> bool {
        path_le(self@, other@)
    }

    proof fn lemma_total(left: Self, right: Self) {
        lemma_rows_le(components(left@), components(right@));
        assert(left.at_or_before(right) == path_le(left@, right@));
        assert(right.at_or_before(left) == path_le(right@, left@));
    }

    proof fn lemma_transitive(a: Self, b: Self, c: Self) {
        lemma_rows_le_trans(components(a@), components(b@), components(c@));
    }

    fn is_at_or_before(&self, other: &Self) -> (result: bool) {
        path_at_or_before(self.as_slice(), other.as_slice())
    }
}

} // verus!
