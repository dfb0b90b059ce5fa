//! Positions in lists.

use vstd::prelude::*;

verus! {

/// The positions below a bound that have a property, in order.
pub open spec fn positions_where(bound: nat, holds: spec_fn(int) -> bool) -> Seq<int> {
    Seq::new(bound, |i: int| i).filter(holds)
}

/// The last position is listed where it has the property.
pub proof fn lemma_positions_where(bound: nat, holds: spec_fn(int) -> bool)
    ensures
        positions_where(0, holds) == Seq::<int>::empty(),
        positions_where(bound + 1, holds) == (if holds(bound as int) {
            positions_where(bound, holds).push(bound as int)
        } else {
            positions_where(bound, holds)
        }),
{
    reveal(Seq::filter);
    let all = Seq::new(bound + 1, |i: int| i);
    assert(all.drop_last() =~= Seq::new(bound, |i: int| i));
    assert(positions_where(0, holds) =~= Seq::<int>::empty());
}

/// The positions that are listed are those with the property.
pub proof fn lemma_listed_positions(bound: nat, holds: spec_fn(int) -> bool)
    ensures
        forall|k: int|
            0 <= k < positions_where(bound, holds).len() ==> {
                &&& 0 <= #[trigger] positions_where(bound, holds)[k] < bound
                &&& holds(positions_where(bound, holds)[k])
            },
        forall|i: int|
            0 <= i < bound && #[trigger] holds(i) ==> positions_where(bound, holds).contains(i),
        positions_where(bound, holds).len() <= bound,
    decreases bound,
{
    lemma_positions_where(0, holds);
    if bound > 0 {
        let before = (bound - 1) as nat;
        lemma_positions_where(before, holds);
        lemma_listed_positions(before, holds);
        let earlier = positions_where(before, holds);
        let all = positions_where(bound, holds);
        assert forall|i: int| 0 <= i < bound && #[trigger] holds(i) implies all.contains(i) by {
            if i < before {
                assert(earlier.contains(i));
                let k = choose|k: int| 0 <= k < earlier.len() && earlier[k] == i;
                assert(all[k] == i);
            } else {
                assert(all[all.len() - 1] == i);
            }
        }
    }
}

/// Properties that agree below a bound list the same positions.
pub proof fn lemma_same_positions(
    bound: nat,
    left: spec_fn(int) -> bool,
    right: spec_fn(int) -> bool,
)
    requires
        forall|i: int| 0 <= i < bound ==> #[trigger] left(i) == right(i),
    ensures
        positions_where(bound, left) == positions_where(bound, right),
    decreases bound,
{
    lemma_positions_where(0, left);
    lemma_positions_where(0, right);
    if bound > 0 {
        let before = (bound - 1) as nat;
        lemma_positions_where(before, left);
        lemma_positions_where(before, right);
        lemma_same_positions(before, left, right);
        assert(left(before as int) == right(before as int));
    }
}

} // verus!
