//! The pluggable district configuration: a strategy that reacts to tree
//! mutations by recomputing seats for some scope and writing them back.

use vstd::prelude::*;

use crate::methods::{method_errs, method_fits, Method};
use crate::tree::events::ElectionEvent;
use crate::tree::single_result::SingleResult;
use crate::tree::ElectionTree;
use crate::{cutoff_alloc, cutoff_votes, kept_upto, spec_total_votes_of, Cutoff};

verus! {

/// The candidacy ids of a tally snapshot, in recording order.
pub open spec fn snap_ids(snap: Seq<(u32, SingleResult)>) -> Seq<u32> {
    snap.map_values(|e: (u32, SingleResult)| e.0)
}

/// The vote counts of a tally snapshot, in recording order.
pub open spec fn snap_votes(snap: Seq<(u32, SingleResult)>) -> Seq<u32> {
    snap.map_values(|e: (u32, SingleResult)| e.1.votes)
}

/// The vote total of the first `n` snapshot entries.
pub open spec fn snap_votes_total(snap: Seq<(u32, SingleResult)>, n: int) -> int
    decreases n,
{
    if n <= 0 {
        0
    } else {
        snap_votes_total(snap, n - 1) + snap[n - 1].1.votes
    }
}

pub proof fn lemma_snap_votes_total_mono(snap: Seq<(u32, SingleResult)>, n: int)
    ensures
        forall|k: int| 0 <= k <= n ==> snap_votes_total(snap, k) <= snap_votes_total(snap, n),
        forall|k: int| 0 <= k <= n ==> snap_votes_total(snap, k) >= 0,
    decreases n,
{
    if n > 0 {
        lemma_snap_votes_total_mono(snap, n - 1);
        assert forall|k: int| 0 <= k <= n implies snap_votes_total(snap, k) <= snap_votes_total(
            snap,
            n,
        ) && snap_votes_total(snap, k) >= 0 by {
            if k < n {
                assert(snap_votes_total(snap, k) <= snap_votes_total(snap, n - 1));
                assert(snap_votes_total(snap, k) >= 0);
            } else {
                assert(snap_votes_total(snap, n - 1) >= 0);
            }
        }
    }
}

/// Whether one district's inputs lie inside the bounds the apportionment
/// methods accept: a representable seat count and vote total, the
/// method's own arithmetic bounds, and at least one candidacy above the
/// cutoff (or none demanded).
pub open spec fn district_inputs_fit(
    snap: Seq<(u32, SingleResult)>,
    seats: u32,
    m: Method,
    cutoff: Cutoff,
) -> bool {
    let vs = snap_votes(snap);
    let cv = cutoff_votes(spec_total_votes_of(vs), cutoff);
    let f = kept_upto(vs, cv, vs.len() as int);
    &&& seats <= u16::MAX
    &&& snap_votes_total(snap, snap.len() as int) <= u32::MAX
    &&& method_fits(m, f, seats as u16)
    &&& !method_errs(m, f.len() as int, seats as u16)
}

/// The seat count the district hands the snapshot's `k`-th candidacy.
pub open spec fn district_seats(
    snap: Seq<(u32, SingleResult)>,
    seats: u32,
    m: Method,
    cutoff: Cutoff,
    k: int,
) -> u32 {
    (cutoff_alloc(snap_votes(snap), seats as u16, m, cutoff)[k] as u16) as u32
}

/// A district configuration may react to an event by rewriting seat
/// tallies through the tree, but it never touches votes, never adds or
/// removes regions or candidacies, and never moves a region.
pub trait ElectionConfig: Sized {
    fn on_event(&self, tree: &mut ElectionTree, event: ElectionEvent)
        requires
            old(tree).wf(),
        ensures
            final(tree).wf(),
            ElectionTree::same_structure(*old(tree), *final(tree)),
            forall|x: u32, c: u32|
                old(tree).valid_region(x) ==> #[trigger] final(tree).votes_of(x, c) == old(tree).votes_of(x, c),
            forall|c: u32| #[trigger] final(tree).root_votes(c) == old(tree).root_votes(c),
    ;
}

} // verus!
