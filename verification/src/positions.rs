//! The positions at which a sequence of flags is set.
use vstd::prelude::*;

use vstd::seq_lib::seq_to_set_is_finite;

verus! {

/// The positions of the set flags, in ascending order.
pub open spec fn positions(flags: Seq<bool>) -> Seq<int>
    decreases flags.len(),
{
    if flags.len() == 0 {
        Seq::empty()
    } else if flags.last() {
        positions(flags.drop_last()).push(flags.len() - 1)
    } else {
        positions(flags.drop_last())
    }
}

/// The flags, each inverted.
pub open spec fn inverted(flags: Seq<bool>) -> Seq<bool> {
    Seq::new(flags.len(), |i: int| !flags[i])
}

/// The positions ascend, and every set flag is at one of them.
pub proof fn lemma_positions(flags: Seq<bool>)
    ensures
        positions(flags).len() <= flags.len(),
        forall|p: int|
            0 <= p < positions(flags).len() ==> 0 <= #[trigger] positions(flags)[p] < flags.len()
                && flags[positions(flags)[p]],
        forall|p: int, q: int|
            0 <= p < q < positions(flags).len() ==> #[trigger] positions(flags)[p]
                < #[trigger] positions(flags)[q],
        forall|i: int|
            0 <= i < flags.len() && #[trigger] flags[i] ==> positions(flags).contains(i),
    decreases flags.len(),
{
    if flags.len() > 0 {
        let front: Seq<bool> = flags.drop_last();
        lemma_positions(front);
        let ps: Seq<int> = positions(front);
        assert forall|p: int| 0 <= p < positions(flags).len() implies 0 <= #[trigger] positions(
            flags,
        )[p] < flags.len() && flags[positions(flags)[p]] by {
            if p < ps.len() {
                assert(positions(flags)[p] == ps[p]);
                assert(front[ps[p]]);
            }
        }
        assert forall|p: int, q: int| 0 <= p < q < positions(flags).len() implies
            #[trigger] positions(flags)[p] < #[trigger] positions(flags)[q] by {
            assert(positions(flags)[p] == ps[p]);
            if q < ps.len() {
                assert(positions(flags)[q] == ps[q]);
            }
        }
        assert forall|i: int| 0 <= i < flags.len() && #[trigger] flags[i] implies positions(
            flags,
        ).contains(i) by {
            if i < front.len() {
                assert(front[i]);
                let p: int = choose|p: int| 0 <= p < ps.len() && ps[p] == i;
                assert(positions(flags)[p] == i);
            } else {
                assert(positions(flags)[ps.len() as int] == i);
            }
        }
    }
}

/// The positions below `end` of the flags that are set.
pub open spec fn set_below(flags: Seq<bool>, end: int) -> Set<int> {
    Set::new(|i: int| 0 <= i < end && flags[i])
}

proof fn lemma_positions_to_set(flags: Seq<bool>)
    ensures
        set_below(flags, flags.len() as int).finite(),
        positions(flags).len() == set_below(flags, flags.len() as int).len(),
{
    let ps: Seq<int> = positions(flags);
    lemma_positions(flags);
    assert(ps.no_duplicates());
    ps.unique_seq_to_set();
    seq_to_set_is_finite(ps);
    assert(ps.to_set() =~= set_below(flags, flags.len() as int)) by {
        assert forall|i: int| ps.to_set().contains(i) implies set_below(
            flags,
            flags.len() as int,
        ).contains(i) by {
            let p: int = choose|p: int| 0 <= p < ps.len() && ps[p] == i;
            assert(flags[ps[p]]);
        }
    }
}

/// There are as many positions as flags are set, and each stands behind those of the set flags
/// before it.
pub proof fn lemma_positions_count(flags: Seq<bool>)
    ensures
        set_below(flags, flags.len() as int).finite(),
        positions(flags).len() == set_below(flags, flags.len() as int).len(),
        forall|i: int|
            0 <= i < flags.len() && #[trigger] flags[i] ==> {
                &&& set_below(flags, i).finite()
                &&& set_below(flags, i).len() < positions(flags).len()
                &&& positions(flags)[set_below(flags, i).len() as int] == i
            },
    decreases flags.len(),
{
    lemma_positions_to_set(flags);
    if flags.len() > 0 {
        let front: Seq<bool> = flags.drop_last();
        lemma_positions_count(front);
        assert forall|i: int| 0 <= i < flags.len() && #[trigger] flags[i] implies {
            &&& set_below(flags, i).finite()
            &&& set_below(flags, i).len() < positions(flags).len()
            &&& positions(flags)[set_below(flags, i).len() as int] == i
        } by {
            assert(set_below(flags, i) =~= set_below(front, i));
            if i < front.len() {
                assert(front[i]);
            }
        }
    }
}

/// Inverting turns each flag over.
pub proof fn lemma_inverted(flags: Seq<bool>)
    ensures
        inverted(flags).len() == flags.len(),
        forall|i: int| 0 <= i < flags.len() ==> #[trigger] inverted(flags)[i] != flags[i],
{
}

/// Each flag is either set or not.
pub proof fn lemma_positions_inverted(flags: Seq<bool>)
    ensures
        positions(flags).len() + positions(inverted(flags)).len() == flags.len(),
    decreases flags.len(),
{
    if flags.len() > 0 {
        lemma_positions_inverted(flags.drop_last());
        assert(inverted(flags).drop_last() =~= inverted(flags.drop_last()));
    }
}

/// Returns the positions of the flags that equal `wanted`.
pub fn find_positions(flags: &Vec<bool>, wanted: bool) -> (found: Vec<usize>)
    ensures
        wanted ==> found@.map_values(|p: usize| p as int) == positions(flags@),
        !wanted ==> found@.map_values(|p: usize| p as int) == positions(inverted(flags@)),
{
    let ghost target: Seq<bool> = if wanted {
        flags@
    } else {
        inverted(flags@)
    };
    let mut found: Vec<usize> = Vec::new();
    let mut i: usize = 0;
    assert(found@.map_values(|p: usize| p as int) =~= positions(target.take(0)));
    while i < flags.len()
        invariant
            i <= flags.len(),
            target.len() == flags.len(),
            forall|k: int| 0 <= k < flags.len() ==> #[trigger] target[k] == (flags@[k] == wanted),
            found@.map_values(|p: usize| p as int) == positions(target.take(i as int)),
        decreases flags.len() - i,
    {
        let ghost before: Seq<usize> = found@;
        proof {
            assert(target.take(i + 1).drop_last() =~= target.take(i as int));
            assert(target.take(i + 1).last() == target[i as int]);
        }
        if flags[i] == wanted {
            found.push(i);
            assert(found@.map_values(|p: usize| p as int) =~= before.map_values(
                |p: usize| p as int,
            ).push(i as int));
        }
        i = i + 1;
    }
    assert(target.take(i as int) =~= target);
    found
}

} // verus!
