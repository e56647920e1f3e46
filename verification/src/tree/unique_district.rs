//! The single-global-district configuration: on any vote increase it
//! recomputes seats over the whole global tally set and writes the result
//! into the global root.

use vstd::prelude::*;

use crate::interface::{WithSeats, WithVotes};
use crate::methods::Method;
use crate::models::Candidacy;
use crate::tree::configs::{
    district_inputs_fit, district_seats, lemma_snap_votes_total_mono, snap_votes,
    snap_votes_total, ElectionConfig,
};
use crate::tree::events::ElectionEvent;
use crate::tree::single_result::SingleResult;
use crate::tree::ElectionTree;
use crate::utils::spec_total_votes;
use crate::{compute_with_cutoff, fits_ok, Cutoff};

verus! {

/// One global district: a method, a seat count, and a cutoff.
#[derive(Debug, Clone, Copy)]
pub struct UniqueDistrict {
    pub method: Method,
    pub seats: u32,
    pub cutoff: Cutoff,
}

impl UniqueDistrict {
    pub fn new(method: Method, seats: u32, cutoff: Cutoff) -> (r: UniqueDistrict)
        ensures
            r == (UniqueDistrict { method, seats, cutoff }),
    {
        UniqueDistrict { method, seats, cutoff }
    }

    /// Recompute the global seats from the global tallies and write them
    /// back into the root: when the inputs lie inside the methods'
    /// machine bounds, each recorded candidacy's root seats equal the
    /// cutoff allocation of the global vote tallies. Inputs outside
    /// those bounds are left as they are.
    #[verifier::rlimit(100)]
    fn compute(&self, tree: &mut ElectionTree)
        requires
            old(tree).wf(),
        ensures
            final(tree).wf(),
            ElectionTree::same_structure(*old(tree), *final(tree)),
            forall|x: u32, c: u32|
                old(tree).valid_region(x) ==> #[trigger] final(tree).votes_of(x, c) == old(tree).votes_of(x, c),
            forall|c: u32| #[trigger] final(tree).root_votes(c) == old(tree).root_votes(c),
            forall|x: u32|
                #[trigger] old(tree).valid_region(x) ==> final(tree).rbox(x).results == old(tree).rbox(x).results,
            ({
                let snap0 = old(tree).root.results.entries@;
                district_inputs_fit(snap0, self.seats, self.method, self.cutoff) ==> forall|k: int|
                    0 <= k < snap0.len() ==> #[trigger] final(tree).root_seats(snap0[k].0)
                        == district_seats(snap0, self.seats, self.method, self.cutoff, k)
            }),
    {
        let ghost t0 = *old(tree);
        let ghost snap0 = t0.root.results.entries@;
        let ghost cond = district_inputs_fit(snap0, self.seats, self.method, self.cutoff);
        if self.seats > u16::MAX as u32 {
            return ;
        }
        let seats16 = self.seats as u16;
        let snap: Vec<(u32, SingleResult)> = tree.get_global_results().iter_results();
        proof {
            assert(snap@ == snap0);
        }
        let (ids, cands) = match snapshot_to_candidacies(&snap) {
            Some(p) => p,
            None => {
                proof {
                    assert(!cond);
                }
                return ;
            },
        };
        let mut cands = cands;
        let ghost vs0 = snap_votes(snap0);
        proof {
            assert(Seq::new(cands@.len(), |i: int| cands@[i].spec_votes()) =~= vs0);
        }
        if !fits_ok(&cands, seats16, self.method, self.cutoff) {
            proof {
                assert(!cond);
            }
            return ;
        }
        let ghost cands_in = cands@;
        let res = compute_with_cutoff(&mut cands, seats16, self.method, self.cutoff);
        match res {
            Ok(_) => {},
            Err(_) => {
                proof {
                    assert(!cond);
                }
                return ;
            },
        }
        let ghost alloc = crate::cutoff_alloc(vs0, seats16, self.method, self.cutoff);
        let n = ids.len();
        proof {
            assert(cands@.len() == n);
            assert forall|m2: int| 0 <= m2 < n implies #[trigger] cands@[m2].spec_seats()
                == alloc[m2] as u16 by {
                assert(cands@[m2] == cands_in[m2].with_seats(alloc[m2] as u16));
            }
            // the root's recorded ids are unique
            assert forall|i: int, j: int| 0 <= i < j < snap0.len() implies snap0[i].0
                != snap0[j].0 by {
                assert(t0.root.results.wf());
            }
        }
        let mut k: usize = 0;
        while k < n
            invariant
                k <= n,
                n == ids@.len(),
                cands@.len() == n,
                n == snap0.len(),
                forall|m2: int| 0 <= m2 < n ==> #[trigger] ids@[m2] == snap0[m2].0,
                forall|i: int, j: int| 0 <= i < j < snap0.len() ==> snap0[i].0 != snap0[j].0,
                forall|m2: int|
                    0 <= m2 < n ==> #[trigger] cands@[m2].spec_seats() == alloc[m2] as u16,
                alloc == crate::cutoff_alloc(vs0, seats16, self.method, self.cutoff),
                vs0 == snap_votes(snap0),
                seats16 == self.seats as u16,
                self.seats <= u16::MAX,
                tree.wf(),
                ElectionTree::same_structure(t0, *tree),
                forall|x: u32, c: u32|
                    t0.valid_region(x) ==> #[trigger] tree.votes_of(x, c) == t0.votes_of(x, c),
                forall|x: u32|
                    #[trigger] t0.valid_region(x) ==> tree.rbox(x).results == t0.rbox(x).results,
                forall|c: u32| #[trigger] tree.root_votes(c) == t0.root_votes(c),
                forall|m2: int|
                    0 <= m2 < k ==> #[trigger] tree.root_seats(snap0[m2].0) == (alloc[m2] as u16)
                        as u32,
            decreases n - k,
        {
            let ghost mid = *tree;
            let s = cands[k].get_seats();
            tree.global_set_seats(ids[k], s as u32);
            proof {
                let fin = *tree;
                assert forall|x: u32, c: u32|
                    t0.valid_region(x) implies #[trigger] fin.votes_of(x, c) == t0.votes_of(
                    x,
                    c,
                ) by {
                    assert(mid.valid_region(x));
                    assert(mid.votes_of(x, c) == t0.votes_of(x, c));
                    assert(fin.regions@ == mid.regions@);
                    assert(fin.rbox(x) == mid.rbox(x));
                }
                assert forall|x: u32| #[trigger] t0.valid_region(x) implies fin.rbox(x).results
                    == t0.rbox(x).results by {
                    assert(mid.valid_region(x));
                    assert(fin.regions@ == mid.regions@);
                    assert(fin.rbox(x) == mid.rbox(x));
                }
                assert forall|c: u32| #[trigger] fin.root_votes(c) == t0.root_votes(c) by {
                    assert(mid.root_votes(c) == t0.root_votes(c));
                    assert(crate::tree::table_updated(
                        mid.root.results,
                        fin.root.results,
                        ids@[k as int],
                        0,
                        s as int - mid.root_seats(ids@[k as int]),
                    ));
                    if c == ids@[k as int] {
                        assert(fin.root.results.spec_get(c) == Some(
                            crate::tree::region_results::tally_apply(
                                mid.root.results.spec_get(c),
                                0,
                                s as int - mid.root_seats(c),
                            ),
                        ));
                    } else {
                        assert(fin.root.results.spec_get(c) == mid.root.results.spec_get(c));
                    }
                }
                assert forall|x: u32| t0.valid_region(x) <==> #[trigger] fin.valid_region(x) by {
                    assert(mid.valid_region(x) <==> fin.valid_region(x)) by {
                        assert(fin.regions@ == mid.regions@);
                    }
                }
                assert forall|x: u32| #[trigger] t0.valid_region(x) implies {
                    &&& fin.parent_of(x) == t0.parent_of(x)
                    &&& fin.children_of(x) == t0.children_of(x)
                    &&& fin.rbox(x).region == t0.rbox(x).region
                } by {
                    assert(mid.valid_region(x));
                    assert(fin.regions@ == mid.regions@);
                }
                assert(ElectionTree::same_structure(t0, fin));
                assert forall|m2: int| 0 <= m2 < k + 1 implies #[trigger] fin.root_seats(
                    snap0[m2].0,
                ) == (alloc[m2] as u16) as u32 by {
                    if m2 == k {
                        assert(fin.root_seats(ids@[k as int]) == s as u32);
                        assert(s == cands@[k as int].spec_seats());
                    } else {
                        assert(mid.root_seats(snap0[m2].0) == (alloc[m2] as u16) as u32);
                        assert(snap0[m2].0 != ids@[k as int]) by {
                            assert(ids@[k as int] == snap0[k as int].0);
                        }
                        assert(fin.root.results.spec_get(snap0[m2].0) == mid.root.results.spec_get(
                            snap0[m2].0,
                        ));
                    }
                }
            }
            k = k + 1;
        }
        proof {
            let fin = *tree;
            if cond {
                assert forall|k2: int| 0 <= k2 < snap0.len() implies #[trigger] fin.root_seats(
                    snap0[k2].0,
                ) == district_seats(snap0, self.seats, self.method, self.cutoff, k2) by {
                    assert(fin.root_seats(snap0[k2].0) == (alloc[k2] as u16) as u32);
                }
            }
        }
    }
}

/// Turn a tally snapshot into candidacy records, refusing an input whose
/// total votes cannot be represented.
pub(crate) fn snapshot_to_candidacies(snap: &Vec<(u32, SingleResult)>) -> (r: Option<
    (Vec<u32>, Vec<Candidacy>),
>)
    ensures
        match r {
            Some(p) => {
                &&& p.0@.len() == snap@.len()
                &&& p.1@.len() == snap@.len()
                &&& spec_total_votes(p.1@, p.1@.len() as int) <= u32::MAX
                &&& snap_votes_total(snap@, snap@.len() as int) <= u32::MAX
                &&& (forall|k: int| 0 <= k < snap@.len() ==> #[trigger] p.0@[k] == snap@[k].0)
                &&& (forall|k: int|
                    0 <= k < snap@.len() ==> #[trigger] p.1@[k].spec_votes() == snap@[k].1.votes)
                &&& (forall|k: int| 0 <= k < snap@.len() ==> #[trigger] p.1@[k].spec_seats() == 0)
            },
            None => snap_votes_total(snap@, snap@.len() as int) > u32::MAX,
        },
{
    let n = snap.len();
    let mut ids: Vec<u32> = Vec::new();
    let mut cands: Vec<Candidacy> = Vec::new();
    let mut total: u64 = 0;
    let mut j: usize = 0;
    while j < n
        invariant
            j <= n,
            n == snap@.len(),
            ids@.len() == j,
            cands@.len() == j,
            total == spec_total_votes(cands@, j as int),
            total == snap_votes_total(snap@, j as int),
            total <= u32::MAX,
            forall|k: int| 0 <= k < j ==> #[trigger] ids@[k] == snap@[k].0,
            forall|k: int| 0 <= k < j ==> #[trigger] cands@[k].spec_votes() == snap@[k].1.votes,
            forall|k: int| 0 <= k < j ==> #[trigger] cands@[k].spec_seats() == 0,
        decreases n - j,
    {
        let ghost prev = cands@;
        let e = snap[j];
        ids.push(e.0);
        cands.push(Candidacy::new(e.1.votes, 0));
        proof {
            assert(spec_total_votes(cands@, j as int + 1) == spec_total_votes(cands@, j as int)
                + cands@[j as int].spec_votes());
            assert(snap_votes_total(snap@, j as int + 1) == snap_votes_total(snap@, j as int)
                + snap@[j as int].1.votes);
            assert forall|k: int| 0 <= k <= j implies spec_total_votes(cands@, k)
                == spec_total_votes(prev, k) by {
                lemma_total_prefix(prev, cands@, k);
            }
        }
        total = total + e.1.votes as u64;
        if total > u32::MAX as u64 {
            proof {
                lemma_snap_votes_total_mono(snap@, n as int);
                assert(snap_votes_total(snap@, j as int + 1) <= snap_votes_total(
                    snap@,
                    n as int,
                ));
            }
            return None;
        }
        j = j + 1;
    }
    Some((ids, cands))
}

/// Prefix sums read only the prefix.
pub(crate) proof fn lemma_total_prefix(s1: Seq<Candidacy>, s2: Seq<Candidacy>, k: int)
    requires
        k <= s1.len(),
        k <= s2.len(),
        forall|i: int| 0 <= i < k ==> s1[i] == s2[i],
    ensures
        spec_total_votes(s1, k) == spec_total_votes(s2, k),
    decreases k,
{
    if k > 0 {
        lemma_total_prefix(s1, s2, k - 1);
    }
}

impl ElectionConfig for UniqueDistrict {
    /// Dispatch: creation and vote increases recompute the global
    /// district, writing the apportionment of the global tallies into
    /// the root and leaving every ordinary region's table untouched;
    /// every other event changes nothing.
    fn on_event(&self, tree: &mut ElectionTree, event: ElectionEvent)
        ensures
            match event {
                ElectionEvent::IncreaseVotes { .. } | ElectionEvent::Create => {
                    &&& ({
                        let snap0 = old(tree).root.results.entries@;
                        district_inputs_fit(snap0, self.seats, self.method, self.cutoff)
                            ==> forall|k: int|
                            0 <= k < snap0.len() ==> #[trigger] final(tree).root_seats(
                                snap0[k].0,
                            ) == district_seats(snap0, self.seats, self.method, self.cutoff, k)
                    })
                    &&& (forall|x: u32|
                        #[trigger] old(tree).valid_region(x) ==> final(tree).rbox(x).results
                            == old(tree).rbox(x).results)
                },
                _ => *final(tree) == *old(tree),
            },
    {
        match event {
            ElectionEvent::IncreaseVotes { .. } | ElectionEvent::Create => {
                self.compute(tree);
            },
            _ => {},
        }
    }
}

} // verus!
