//! The per-region configuration: each configured region is an
//! independent district with its own method, seat count and cutoff.

use vstd::prelude::*;

use crate::interface::{WithSeats, WithVotes};
use crate::methods::Method;
use crate::tree::configs::{
    district_inputs_fit, district_seats, snap_votes, snap_votes_total, ElectionConfig,
};
use crate::tree::errors::SystemError;
use crate::tree::events::ElectionEvent;
use crate::tree::single_result::SingleResult;
use crate::tree::system::ElectionSystem;
use crate::tree::unique_district::snapshot_to_candidacies;
use crate::tree::ElectionTree;
use crate::{compute_with_cutoff, fits_ok, Cutoff};

verus! {

/// One district's policy: a method, a seat count, and a cutoff.
#[derive(Debug, Clone, Copy)]
pub struct DistrictConfig {
    pub method: Method,
    pub seats: u32,
    pub cutoff: Cutoff,
}

impl DistrictConfig {
    pub fn new(method: Method, seats: u32, cutoff: Cutoff) -> (r: DistrictConfig)
        ensures
            r == (DistrictConfig { method, seats, cutoff }),
    {
        DistrictConfig { method, seats, cutoff }
    }
}

/// A district configuration per configured region id.
#[derive(Debug, Clone)]
pub struct MultiDistrictConfig {
    pub configs: Vec<(u32, DistrictConfig)>,
}

impl MultiDistrictConfig {
    pub fn new() -> (r: MultiDistrictConfig)
        ensures
            r.configs@.len() == 0,
    {
        MultiDistrictConfig { configs: Vec::new() }
    }

    /// Index of the first configuration entry for a region, or -1.
    pub open spec fn cfg_idx(s: Seq<(u32, DistrictConfig)>, id: u32) -> int
        decreases s.len(),
    {
        if s.len() == 0 {
            -1
        } else if s[0].0 == id {
            0
        } else {
            let r = Self::cfg_idx(s.subrange(1, s.len() as int), id);
            if r < 0 {
                -1
            } else {
                r + 1
            }
        }
    }

    /// The configuration recorded for a region, if any: the first entry
    /// with that id.
    pub open spec fn spec_lookup(s: Seq<(u32, DistrictConfig)>, id: u32) -> Option<
        DistrictConfig,
    > {
        if Self::cfg_idx(s, id) >= 0 {
            Some(s[Self::cfg_idx(s, id)].1)
        } else {
            None
        }
    }

    /// What `cfg_idx` finds: a match with no earlier match, or no match.
    pub proof fn lemma_cfg_idx(s: Seq<(u32, DistrictConfig)>, id: u32)
        ensures
            Self::cfg_idx(s, id) == -1 ==> forall|k: int| 0 <= k < s.len() ==> s[k].0 != id,
            Self::cfg_idx(s, id) != -1 ==> 0 <= Self::cfg_idx(s, id) < s.len() && s[Self::cfg_idx(
                s,
                id,
            )].0 == id && forall|k: int| 0 <= k < Self::cfg_idx(s, id) ==> s[k].0 != id,
        decreases s.len(),
    {
        if s.len() == 0 {
        } else if s[0].0 == id {
        } else {
            let t = s.subrange(1, s.len() as int);
            Self::lemma_cfg_idx(t, id);
            assert forall|k: int| 1 <= k < s.len() implies s[k] == t[k - 1] by {}
        }
    }

    /// A match at `m` with no earlier match is what `cfg_idx` finds.
    pub proof fn lemma_cfg_first(s: Seq<(u32, DistrictConfig)>, id: u32, m: int)
        requires
            0 <= m < s.len(),
            s[m].0 == id,
            forall|k: int| 0 <= k < m ==> s[k].0 != id,
        ensures
            Self::cfg_idx(s, id) == m,
        decreases s.len(),
    {
        if s[0].0 == id {
            assert(m == 0);
        } else {
            let t = s.subrange(1, s.len() as int);
            assert(t[m - 1] == s[m]);
            assert forall|k: int| 0 <= k < m - 1 implies t[k].0 != id by {
                assert(t[k] == s[k + 1]);
            }
            Self::lemma_cfg_first(t, id, m - 1);
        }
    }

    /// `cfg_idx` looks only at the region ids, not at the configurations
    /// beside them.
    pub proof fn lemma_cfg_same_ids(
        s1: Seq<(u32, DistrictConfig)>,
        s2: Seq<(u32, DistrictConfig)>,
        id: u32,
    )
        requires
            s1.len() == s2.len(),
            forall|k: int| 0 <= k < s1.len() ==> s1[k].0 == s2[k].0,
        ensures
            Self::cfg_idx(s1, id) == Self::cfg_idx(s2, id),
        decreases s1.len(),
    {
        if s1.len() == 0 {
        } else if s1[0].0 == id {
        } else {
            let t1 = s1.subrange(1, s1.len() as int);
            let t2 = s2.subrange(1, s2.len() as int);
            Self::lemma_cfg_same_ids(t1, t2, id);
        }
    }

    /// `cfg_idx` after one entry is appended.
    pub proof fn lemma_cfg_push(s: Seq<(u32, DistrictConfig)>, e: (u32, DistrictConfig), id: u32)
        ensures
            Self::cfg_idx(s.push(e), id) == if Self::cfg_idx(s, id) >= 0 {
                Self::cfg_idx(s, id)
            } else if e.0 == id {
                s.len() as int
            } else {
                -1
            },
            Self::spec_lookup(s.push(e), id) == if Self::cfg_idx(s, id) >= 0 {
                Self::spec_lookup(s, id)
            } else if e.0 == id {
                Some(e.1)
            } else {
                None::<DistrictConfig>
            },
    {
        let p = s.push(e);
        Self::lemma_cfg_idx(s, id);
        if Self::cfg_idx(s, id) >= 0 {
            let m = Self::cfg_idx(s, id);
            assert(p[m] == s[m]);
            assert forall|k: int| 0 <= k < m implies p[k].0 != id by {
                assert(p[k] == s[k]);
            }
            Self::lemma_cfg_first(p, id, m);
        } else if e.0 == id {
            assert(p[s.len() as int] == e);
            assert forall|k: int| 0 <= k < s.len() implies p[k].0 != id by {
                assert(p[k] == s[k]);
            }
            Self::lemma_cfg_first(p, id, s.len() as int);
        } else {
            Self::lemma_cfg_idx(p, id);
            if Self::cfg_idx(p, id) >= 0 {
                let m = Self::cfg_idx(p, id);
                if m < s.len() {
                    assert(s[m] == p[m]);
                }
            }
        }
    }

    /// The configuration recorded for a region, if any.
    fn lookup(&self, region_id: u32) -> (r: Option<DistrictConfig>)
        ensures
            r == Self::spec_lookup(self.configs@, region_id),
    {
        let n = self.configs.len();
        let mut j: usize = 0;
        while j < n
            invariant
                j <= n,
                n == self.configs@.len(),
                forall|k: int| 0 <= k < j ==> self.configs@[k].0 != region_id,
            decreases n - j,
        {
            if self.configs[j].0 == region_id {
                proof {
                    Self::lemma_cfg_first(self.configs@, region_id, j as int);
                }
                return Some(self.configs[j].1);
            }
            j = j + 1;
        }
        proof {
            Self::lemma_cfg_idx(self.configs@, region_id);
            if Self::cfg_idx(self.configs@, region_id) >= 0 {
                let m = Self::cfg_idx(self.configs@, region_id);
                assert(self.configs@[m].0 != region_id);
            }
        }
        None
    }

    /// The extra bound the per-region recompute needs: every candidacy
    /// recorded in the region's snapshot must still exist, so that each
    /// seat write is accepted.
    pub open spec fn snap_candidacies_alive(t: ElectionTree, snap: Seq<(u32, SingleResult)>) -> bool {
        forall|k: int| 0 <= k < snap.len() ==> t.valid_candidacy(#[trigger] snap[k].0)
    }

    /// Recompute one configured region's seats from its own tallies and
    /// write them back through the tree: when the region exists, its
    /// candidacies are alive and the inputs lie inside the methods'
    /// machine bounds, each recorded candidacy's seats at the region
    /// equal the cutoff allocation of the region's vote tallies. Inputs
    /// outside those bounds, and ids the tree no longer knows, are
    /// skipped.
    #[verifier::rlimit(100)]
    fn compute(&self, tree: &mut ElectionTree, region_id: u32, dc: DistrictConfig)
        requires
            old(tree).wf(),
        ensures
            final(tree).wf(),
            ElectionTree::same_structure(*old(tree), *final(tree)),
            forall|x: u32, c: u32|
                old(tree).valid_region(x) ==> #[trigger] final(tree).votes_of(x, c) == old(tree).votes_of(x, c),
            forall|c: u32| #[trigger] final(tree).root_votes(c) == old(tree).root_votes(c),
            forall|x: u32|
                #[trigger] old(tree).valid_region(x) && !old(tree).on_chain(region_id, x)
                    ==> final(tree).rbox(x).results == old(tree).rbox(x).results,
            forall|x: u32|
                #[trigger] old(tree).valid_region(x) && !old(tree).valid_region(region_id)
                    ==> final(tree).rbox(x).results == old(tree).rbox(x).results,
            ({
                let snap0 = old(tree).results_of(region_id).entries@;
                (old(tree).valid_region(region_id) && Self::snap_candidacies_alive(
                    *old(tree),
                    snap0,
                ) && district_inputs_fit(snap0, dc.seats, dc.method, dc.cutoff)) ==> forall|k: int|
                    0 <= k < snap0.len() ==> #[trigger] final(tree).seats_of(
                        region_id,
                        snap0[k].0,
                    ) == district_seats(snap0, dc.seats, dc.method, dc.cutoff, k)
            }),
    {
        let ghost t0 = *old(tree);
        let ghost snap0 = t0.results_of(region_id).entries@;
        let ghost cond = t0.valid_region(region_id) && Self::snap_candidacies_alive(t0, snap0)
            && district_inputs_fit(snap0, dc.seats, dc.method, dc.cutoff);
        if dc.seats > u16::MAX as u32 {
            proof {
                assert(!cond);
            }
            return ;
        }
        let seats16 = dc.seats as u16;
        let snap: Vec<(u32, SingleResult)> = match tree.iterate_results(region_id) {
            Ok(s) => s,
            Err(_) => {
                proof {
                    assert(!cond);
                }
                return ;
            },
        };
        proof {
            assert(snap@ == snap0);
        }
        let (ids, cands) = match snapshot_to_candidacies(&snap) {
            Some(p) => p,
            None => {
                proof {
                    assert(!cond);
                }
                return ;
            },
        };
        let mut cands = cands;
        let ghost vs0 = snap_votes(snap0);
        proof {
            assert(Seq::new(cands@.len(), |i: int| cands@[i].spec_votes()) =~= vs0);
        }
        if !fits_ok(&cands, seats16, dc.method, dc.cutoff) {
            proof {
                assert(!cond);
            }
            return ;
        }
        let ghost cands_in = cands@;
        let res = compute_with_cutoff(&mut cands, seats16, dc.method, dc.cutoff);
        match res {
            Ok(_) => {},
            Err(_) => {
                proof {
                    assert(!cond);
                }
                return ;
            },
        }
        let ghost alloc = crate::cutoff_alloc(vs0, seats16, dc.method, dc.cutoff);
        let n = ids.len();
        proof {
            assert(cands@.len() == n);
            assert forall|m2: int| 0 <= m2 < n implies #[trigger] cands@[m2].spec_seats()
                == alloc[m2] as u16 by {
                assert(cands@[m2] == cands_in[m2].with_seats(alloc[m2] as u16));
            }
            if t0.valid_region(region_id) {
                assert(t0.results_of(region_id).wf());
                assert forall|i: int, j: int| 0 <= i < j < snap0.len() implies snap0[i].0
                    != snap0[j].0 by {}
            }
        }
        let mut k: usize = 0;
        while k < n
            invariant
                k <= n,
                n == ids@.len(),
                cands@.len() == n,
                n == snap0.len(),
                forall|m2: int| 0 <= m2 < n ==> #[trigger] ids@[m2] == snap0[m2].0,
                cond ==> forall|i: int, j: int|
                    0 <= i < j < snap0.len() ==> snap0[i].0 != snap0[j].0,
                forall|m2: int|
                    0 <= m2 < n ==> #[trigger] cands@[m2].spec_seats() == alloc[m2] as u16,
                alloc == crate::cutoff_alloc(vs0, seats16, dc.method, dc.cutoff),
                vs0 == snap_votes(snap0),
                seats16 == dc.seats as u16,
                dc.seats <= u16::MAX,
                cond == (t0.valid_region(region_id) && Self::snap_candidacies_alive(t0, snap0)
                    && district_inputs_fit(snap0, dc.seats, dc.method, dc.cutoff)),
                t0.wf(),
                tree.wf(),
                ElectionTree::same_structure(t0, *tree),
                forall|x: u32, c: u32|
                    t0.valid_region(x) ==> #[trigger] tree.votes_of(x, c) == t0.votes_of(x, c),
                forall|x: u32|
                    #[trigger] t0.valid_region(x) && !t0.on_chain(region_id, x)
                        ==> tree.rbox(x).results == t0.rbox(x).results,
                forall|c: u32| #[trigger] tree.root_votes(c) == t0.root_votes(c),
                cond ==> forall|m2: int|
                    0 <= m2 < k ==> #[trigger] tree.seats_of(region_id, snap0[m2].0) == (
                    alloc[m2] as u16) as u32,
            decreases n - k,
        {
            let ghost mid = *tree;
            let s = cands[k].get_seats();
            let res2 = tree.set_seats(region_id, ids[k], s as u32);
            proof {
                let fin = *tree;
                match res2 {
                    Ok(_) => {
                        assert(ElectionTree::delta_applied(
                            mid,
                            fin,
                            region_id,
                            ids@[k as int],
                            0,
                            s as int - mid.seats_of(region_id, ids@[k as int]),
                        ));
                        assert forall|x: u32, c: u32|
                            t0.valid_region(x) implies #[trigger] fin.votes_of(x, c)
                            == t0.votes_of(x, c) by {
                            assert(mid.valid_region(x));
                            assert(mid.votes_of(x, c) == t0.votes_of(x, c));
                            if mid.on_chain(region_id, x) {
                                assert(crate::tree::table_updated(
                                    mid.results_of(x),
                                    fin.results_of(x),
                                    ids@[k as int],
                                    0,
                                    s as int - mid.seats_of(region_id, ids@[k as int]),
                                ));
                                if c != ids@[k as int] {
                                    assert(fin.results_of(x).spec_get(c) == mid.results_of(
                                        x,
                                    ).spec_get(c));
                                } else {
                                    assert(fin.results_of(x).spec_get(c) == Some(
                                        crate::tree::region_results::tally_apply(
                                            mid.results_of(x).spec_get(c),
                                            0,
                                            s as int - mid.seats_of(region_id, ids@[k as int]),
                                        ),
                                    ));
                                }
                            } else {
                                assert(fin.rbox(x).results == mid.rbox(x).results);
                            }
                        }
                        assert forall|c: u32| #[trigger] fin.root_votes(c) == t0.root_votes(c) by {
                            assert(mid.root_votes(c) == t0.root_votes(c));
                            assert(crate::tree::table_updated(
                                mid.root.results,
                                fin.root.results,
                                ids@[k as int],
                                0,
                                s as int - mid.seats_of(region_id, ids@[k as int]),
                            ));
                            if c != ids@[k as int] {
                                assert(fin.root.results.spec_get(c) == mid.root.results.spec_get(
                                    c,
                                ));
                            } else {
                                assert(fin.root.results.spec_get(c) == Some(
                                    crate::tree::region_results::tally_apply(
                                        mid.root.results.spec_get(c),
                                        0,
                                        s as int - mid.seats_of(region_id, ids@[k as int]),
                                    ),
                                ));
                            }
                        }
                        assert forall|x: u32| t0.valid_region(x) <==> #[trigger] fin.valid_region(
                            x,
                        ) by {
                            assert(mid.valid_region(x) <==> fin.valid_region(x));
                        }
                        assert forall|x: u32| #[trigger] t0.valid_region(x) implies {
                            &&& fin.parent_of(x) == t0.parent_of(x)
                            &&& fin.children_of(x) == t0.children_of(x)
                            &&& fin.rbox(x).region == t0.rbox(x).region
                        } by {
                            assert(mid.valid_region(x));
                        }
                        assert(ElectionTree::same_structure(t0, fin));
                        assert forall|x: u32|
                            #[trigger] t0.valid_region(x) && !t0.on_chain(region_id, x) implies
                            fin.rbox(x).results == t0.rbox(x).results by {
                            assert(mid.valid_region(x));
                            assert(t0.valid_region(region_id));
                            t0.lemma_the_chain(region_id);
                            ElectionTree::lemma_chain_frame(t0, mid);
                            assert(mid.the_chain(region_id) == t0.the_chain(region_id));
                            assert(!mid.on_chain(region_id, x));
                            assert(fin.rbox(x).results == mid.rbox(x).results);
                        }
                        if cond {
                            assert forall|m2: int| 0 <= m2 < k + 1 implies #[trigger] fin.seats_of(
                                region_id,
                                snap0[m2].0,
                            ) == (alloc[m2] as u16) as u32 by {
                                if m2 == k {
                                    assert(fin.seats_of(region_id, ids@[k as int]) == s as u32);
                                    assert(s == cands@[k as int].spec_seats());
                                } else {
                                    assert(mid.seats_of(region_id, snap0[m2].0) == (
                                    alloc[m2] as u16) as u32);
                                    assert(snap0[m2].0 != ids@[k as int]) by {
                                        assert(ids@[k as int] == snap0[k as int].0);
                                    }
                                    assert(mid.valid_region(region_id));
                                    assert(mid.on_chain(region_id, region_id));
                                    assert(fin.results_of(region_id).spec_get(snap0[m2].0)
                                        == mid.results_of(region_id).spec_get(snap0[m2].0));
                                }
                            }
                        }
                    },
                    Err(_) => {
                        assert(fin == mid);
                        if cond {
                            // every write is accepted: the region exists
                            // and the candidacy is still alive
                            assert(mid.valid_region(region_id));
                            assert(t0.valid_candidacy(snap0[k as int].0));
                            assert(mid.valid_candidacy(ids@[k as int]));
                            assert(false);
                        }
                    },
                }
            }
            k = k + 1;
        }
        proof {
            let fin = *tree;
            if cond {
                assert forall|k2: int| 0 <= k2 < snap0.len() implies #[trigger] fin.seats_of(
                    region_id,
                    snap0[k2].0,
                ) == district_seats(snap0, dc.seats, dc.method, dc.cutoff, k2) by {
                    assert(fin.seats_of(region_id, snap0[k2].0) == (alloc[k2] as u16) as u32);
                }
            }
        }
    }

    /// React to a region being modified: a configured region is
    /// recomputed; an unconfigured one has its seats cleared, so that
    /// removing a district's configuration also removes its seat
    /// allocations.
    fn on_region_modified(&self, tree: &mut ElectionTree, region_id: u32)
        requires
            old(tree).wf(),
        ensures
            final(tree).wf(),
            ElectionTree::same_structure(*old(tree), *final(tree)),
            forall|x: u32, c: u32|
                old(tree).valid_region(x) ==> #[trigger] final(tree).votes_of(x, c) == old(tree).votes_of(x, c),
            forall|c: u32| #[trigger] final(tree).root_votes(c) == old(tree).root_votes(c),
            match Self::spec_lookup(self.configs@, region_id) {
                Some(dc) => ({
                    let snap0 = old(tree).results_of(region_id).entries@;
                    (old(tree).valid_region(region_id) && Self::snap_candidacies_alive(
                        *old(tree),
                        snap0,
                    ) && district_inputs_fit(snap0, dc.seats, dc.method, dc.cutoff)) ==> forall|
                        k: int,
                    |
                        0 <= k < snap0.len() ==> #[trigger] final(tree).seats_of(
                            region_id,
                            snap0[k].0,
                        ) == district_seats(snap0, dc.seats, dc.method, dc.cutoff, k)
                }),
                None => old(tree).valid_region(region_id) ==> forall|c: u32|
                    #[trigger] final(tree).seats_of(region_id, c) == 0,
            },
    {
        match self.lookup(region_id) {
            Some(dc) => {
                self.compute(tree, region_id, dc);
            },
            None => {
                let ghost t0 = *tree;
                let res = tree.clear_region(region_id);
                proof {
                    let fin = *tree;
                    match res {
                        Ok(_) => {
                            assert(ElectionTree::region_cleared(t0, fin, region_id));
                            let snap0 = ElectionTree::seats_snapshot(
                                t0.results_of(region_id).entries@,
                            );
                            assert forall|x: u32, c: u32|
                                t0.valid_region(x) implies #[trigger] fin.votes_of(x, c)
                                == t0.votes_of(x, c) by {
                                if t0.on_chain(region_id, x) {
                                    assert(ElectionTree::table_snap_applied(
                                        t0.results_of(x),
                                        fin.results_of(x),
                                        snap0,
                                        -1,
                                    ));
                                    crate::tree::region_results::lemma_idx_of(snap0, c);
                                    if crate::tree::region_results::idx_of(snap0, c) >= 0 {
                                        assert(snap0[crate::tree::region_results::idx_of(
                                            snap0,
                                            c,
                                        )].1.votes == 0);
                                    }
                                } else {
                                    assert(fin.rbox(x).results == t0.rbox(x).results);
                                }
                            }
                            assert forall|c: u32| #[trigger] fin.root_votes(c) == t0.root_votes(
                                c,
                            ) by {
                                assert(ElectionTree::table_snap_applied(
                                    t0.root.results,
                                    fin.root.results,
                                    snap0,
                                    -1,
                                ));
                                crate::tree::region_results::lemma_idx_of(snap0, c);
                                if crate::tree::region_results::idx_of(snap0, c) >= 0 {
                                    assert(snap0[crate::tree::region_results::idx_of(
                                        snap0,
                                        c,
                                    )].1.votes == 0);
                                }
                            }
                        },
                        Err(_) => {},
                    }
                }
            },
        }
    }

    /// Whether the `k`-th configured entry's region stands clear of every
    /// other configured entry's write path: no other configured region
    /// lies in its subtree, so no other recompute touches its table.
    pub open spec fn entry_independent(
        t: ElectionTree,
        s: Seq<(u32, DistrictConfig)>,
        k: int,
    ) -> bool {
        forall|k2: int| 0 <= k2 < s.len() && k2 != k ==> !t.on_chain(#[trigger] s[k2].0, s[k].0)
    }

    /// The conditional recompute outcome of one configured entry, read
    /// against a fixed pre-state.
    pub open spec fn entry_recomputed(
        pre: ElectionTree,
        post: ElectionTree,
        r: u32,
        dc: DistrictConfig,
    ) -> bool {
        let snap0 = pre.results_of(r).entries@;
        (pre.valid_region(r) && Self::snap_candidacies_alive(pre, snap0) && district_inputs_fit(
            snap0,
            dc.seats,
            dc.method,
            dc.cutoff,
        )) ==> forall|k: int|
            0 <= k < snap0.len() ==> #[trigger] post.seats_of(r, snap0[k].0) == district_seats(
                snap0,
                dc.seats,
                dc.method,
                dc.cutoff,
                k,
            )
    }

    /// Recompute every configured region. Regions whose subtrees hold no
    /// other configured region are recomputed from their pre-state
    /// tallies; overlapping districts see each other's write-backs, as
    /// in the original event loop.
    fn compute_all(&self, tree: &mut ElectionTree)
        requires
            old(tree).wf(),
        ensures
            final(tree).wf(),
            ElectionTree::same_structure(*old(tree), *final(tree)),
            forall|x: u32, c: u32|
                old(tree).valid_region(x) ==> #[trigger] final(tree).votes_of(x, c) == old(tree).votes_of(x, c),
            forall|c: u32| #[trigger] final(tree).root_votes(c) == old(tree).root_votes(c),
            forall|k: int|
                0 <= k < self.configs@.len() && #[trigger] Self::entry_independent(
                    *old(tree),
                    self.configs@,
                    k,
                ) ==> Self::entry_recomputed(
                    *old(tree),
                    *final(tree),
                    self.configs@[k].0,
                    self.configs@[k].1,
                ),
    {
        let ghost t0 = *old(tree);
        let ghost cfgs = self.configs@;
        let n = self.configs.len();
        let mut j: usize = 0;
        while j < n
            invariant
                j <= n,
                n == self.configs@.len(),
                cfgs == self.configs@,
                t0.wf(),
                tree.wf(),
                ElectionTree::same_structure(t0, *tree),
                forall|x: u32, c: u32|
                    t0.valid_region(x) ==> #[trigger] tree.votes_of(x, c) == t0.votes_of(x, c),
                forall|c: u32| #[trigger] tree.root_votes(c) == t0.root_votes(c),
                forall|k: int|
                    j <= k < n && #[trigger] Self::entry_independent(t0, cfgs, k)
                        && t0.valid_region(cfgs[k].0) ==> tree.rbox(cfgs[k].0).results
                        == t0.rbox(cfgs[k].0).results,
                forall|k: int|
                    0 <= k < j && #[trigger] Self::entry_independent(t0, cfgs, k)
                        ==> Self::entry_recomputed(t0, *tree, cfgs[k].0, cfgs[k].1),
            decreases n - j,
        {
            let ghost mid = *tree;
            let entry = self.configs[j];
            self.compute(tree, entry.0, entry.1);
            proof {
                let fin = *tree;
                assert forall|x: u32, c: u32|
                    t0.valid_region(x) implies #[trigger] fin.votes_of(x, c) == t0.votes_of(
                    x,
                    c,
                ) by {
                    assert(mid.valid_region(x));
                    assert(fin.votes_of(x, c) == mid.votes_of(x, c));
                }
                assert forall|x: u32| t0.valid_region(x) <==> #[trigger] fin.valid_region(x) by {
                    assert(mid.valid_region(x) <==> fin.valid_region(x));
                }
                assert forall|x: u32| #[trigger] t0.valid_region(x) implies {
                    &&& fin.parent_of(x) == t0.parent_of(x)
                    &&& fin.children_of(x) == t0.children_of(x)
                    &&& fin.rbox(x).region == t0.rbox(x).region
                } by {
                    assert(mid.valid_region(x));
                }
                assert(ElectionTree::same_structure(t0, fin));
                // an untouched entry is left alone unless this step wrote
                // into its table
                assert forall|k: int|
                    0 <= k < n && #[trigger] Self::entry_independent(t0, cfgs, k) && k != j as int
                        && t0.valid_region(cfgs[k].0) && mid.rbox(cfgs[k].0).results == t0.rbox(
                    cfgs[k].0,
                ).results implies fin.rbox(cfgs[k].0).results == t0.rbox(cfgs[k].0).results by {
                    let rk = cfgs[k].0;
                    assert(!t0.on_chain(entry.0, rk));
                    assert(mid.valid_region(rk));
                    if mid.valid_region(entry.0) {
                        assert(t0.valid_region(entry.0));
                        t0.lemma_the_chain(entry.0);
                        ElectionTree::lemma_chain_frame(t0, mid);
                        assert(mid.the_chain(entry.0) == t0.the_chain(entry.0));
                        assert(!mid.on_chain(entry.0, rk));
                        assert(fin.rbox(rk).results == mid.rbox(rk).results);
                    } else {
                        assert(!mid.valid_region(entry.0));
                        assert(fin.rbox(rk).results == mid.rbox(rk).results);
                    }
                }
                // the entry processed now is recomputed from its
                // untouched pre-state snapshot
                assert forall|k: int|
                    0 <= k < j + 1 && #[trigger] Self::entry_independent(t0, cfgs, k) implies
                    Self::entry_recomputed(t0, fin, cfgs[k].0, cfgs[k].1) by {
                    let rk = cfgs[k].0;
                    let dck = cfgs[k].1;
                    let snap0 = t0.results_of(rk).entries@;
                    if t0.valid_region(rk) && Self::snap_candidacies_alive(t0, snap0)
                        && district_inputs_fit(snap0, dck.seats, dck.method, dck.cutoff) {
                        if k == j as int {
                            assert(mid.rbox(rk).results == t0.rbox(rk).results);
                            let snapm = mid.results_of(rk).entries@;
                            assert(snapm == snap0);
                            assert(mid.valid_region(rk));
                            assert(Self::snap_candidacies_alive(mid, snapm)) by {
                                assert forall|i: int|
                                    0 <= i < snapm.len() implies mid.valid_candidacy(
                                    #[trigger] snapm[i].0,
                                ) by {
                                    assert(t0.valid_candidacy(snap0[i].0));
                                }
                            }
                            assert forall|i: int|
                                0 <= i < snap0.len() implies #[trigger] fin.seats_of(
                                rk,
                                snap0[i].0,
                            ) == district_seats(snap0, dck.seats, dck.method, dck.cutoff, i) by {
                                assert(fin.seats_of(rk, snapm[i].0) == district_seats(
                                    snapm,
                                    dck.seats,
                                    dck.method,
                                    dck.cutoff,
                                    i,
                                ));
                            }
                        } else {
                            assert(Self::entry_recomputed(t0, mid, rk, dck));
                            // this step does not write into that region
                            assert(!t0.on_chain(entry.0, rk));
                            assert(mid.valid_region(rk));
                            assert forall|i: int|
                                0 <= i < snap0.len() implies #[trigger] fin.seats_of(
                                rk,
                                snap0[i].0,
                            ) == district_seats(snap0, dck.seats, dck.method, dck.cutoff, i) by {
                                assert(mid.seats_of(rk, snap0[i].0) == district_seats(
                                    snap0,
                                    dck.seats,
                                    dck.method,
                                    dck.cutoff,
                                    i,
                                ));
                                if mid.valid_region(entry.0) {
                                    assert(t0.valid_region(entry.0));
                                    t0.lemma_the_chain(entry.0);
                                    ElectionTree::lemma_chain_frame(t0, mid);
                                    assert(mid.the_chain(entry.0) == t0.the_chain(entry.0));
                                    assert(!mid.on_chain(entry.0, rk));
                                    assert(fin.rbox(rk).results == mid.rbox(rk).results);
                                } else {
                                    assert(fin.rbox(rk).results == mid.rbox(rk).results);
                                }
                            }
                        }
                    }
                }
            }
            j = j + 1;
        }
    }
}

impl ElectionConfig for MultiDistrictConfig {
    /// Dispatch: creation recomputes every configured region; a modified
    /// region is recomputed when configured and has its seats cleared
    /// when not; a vote increase recomputes exactly the configured
    /// region it hit; every other event changes nothing.
    fn on_event(&self, tree: &mut ElectionTree, event: ElectionEvent)
        ensures
            match event {
                ElectionEvent::Create => forall|k: int|
                    0 <= k < self.configs@.len() && #[trigger] Self::entry_independent(
                        *old(tree),
                        self.configs@,
                        k,
                    ) ==> Self::entry_recomputed(
                        *old(tree),
                        *final(tree),
                        self.configs@[k].0,
                        self.configs@[k].1,
                    ),
                ElectionEvent::RegionModified(r) => match Self::spec_lookup(self.configs@, r) {
                    Some(dc) => Self::entry_recomputed(*old(tree), *final(tree), r, dc),
                    None => old(tree).valid_region(r) ==> forall|c: u32|
                        #[trigger] final(tree).seats_of(r, c) == 0,
                },
                ElectionEvent::IncreaseVotes { region, .. } => match Self::spec_lookup(
                    self.configs@,
                    region,
                ) {
                    Some(dc) => Self::entry_recomputed(*old(tree), *final(tree), region, dc),
                    None => *final(tree) == *old(tree),
                },
                _ => *final(tree) == *old(tree),
            },
    {
        match event {
            ElectionEvent::Create => {
                self.compute_all(tree);
            },
            ElectionEvent::RegionModified(region_id) => {
                self.on_region_modified(tree, region_id);
            },
            ElectionEvent::IncreaseVotes { region, .. } => {
                match self.lookup(region) {
                    Some(dc) => {
                        self.compute(tree, region, dc);
                    },
                    None => {},
                }
            },
            _ => {},
        }
    }
}

impl ElectionSystem<MultiDistrictConfig> {
    /// Record (or replace) a region's district configuration and
    /// recompute that region: when the region exists with live
    /// candidacies and its inputs fit the method's bounds, its seats
    /// equal the cutoff allocation under the new configuration.
    pub fn set_config(&mut self, region_id: u32, config: DistrictConfig)
        requires
            old(self).wf(),
        ensures
            final(self).wf(),
            MultiDistrictConfig::spec_lookup(final(self).config.configs@, region_id) == Some(config),
            forall|id2: u32|
                id2 != region_id ==> #[trigger] MultiDistrictConfig::spec_lookup(
                    final(self).config.configs@,
                    id2,
                ) == MultiDistrictConfig::spec_lookup(old(self).config.configs@, id2),
            ElectionTree::same_structure(old(self).tree, final(self).tree),
            forall|x: u32, c: u32|
                old(self).tree.valid_region(x) ==> #[trigger] final(self).tree.votes_of(x, c)
                    == old(self).tree.votes_of(x, c),
            forall|c: u32|
                #[trigger] final(self).tree.root_votes(c) == old(self).tree.root_votes(c),
            ({
                let snap0 = old(self).tree.results_of(region_id).entries@;
                (old(self).tree.valid_region(region_id)
                    && MultiDistrictConfig::snap_candidacies_alive(old(self).tree, snap0)
                    && district_inputs_fit(snap0, config.seats, config.method, config.cutoff))
                    ==> forall|k: int|
                    0 <= k < snap0.len() ==> #[trigger] final(self).tree.seats_of(
                        region_id,
                        snap0[k].0,
                    ) == district_seats(snap0, config.seats, config.method, config.cutoff, k)
            }),
    {
        let ghost s0 = self.config.configs@;
        let n = self.config.configs.len();
        let mut j: usize = 0;
        loop
            invariant
                j <= n,
                n == self.config.configs@.len(),
                self.config.configs@ == s0,
                self.tree == old(self).tree,
                forall|k: int| 0 <= k < j ==> s0[k].0 != region_id,
            ensures
                self.config.configs@ == s0,
                self.tree == old(self).tree,
                j <= n,
                n == s0.len(),
                j < n ==> s0[j as int].0 == region_id,
                forall|k: int| 0 <= k < j ==> s0[k].0 != region_id,
                j == n ==> forall|k: int| 0 <= k < n ==> s0[k].0 != region_id,
            decreases n - j,
        {
            if j == n {
                break ;
            }
            if self.config.configs[j].0 == region_id {
                break ;
            }
            j = j + 1;
        }
        if j < n {
            self.config.configs.set(j, (region_id, config));
            proof {
                let s1 = self.config.configs@;
                assert forall|k: int| 0 <= k < s0.len() implies s1[k].0 == s0[k].0 by {}
                MultiDistrictConfig::lemma_cfg_first(s0, region_id, j as int);
                MultiDistrictConfig::lemma_cfg_first(s1, region_id, j as int);
                assert(MultiDistrictConfig::spec_lookup(s1, region_id) == Some(config));
                assert forall|id2: u32|
                    id2 != region_id implies #[trigger] MultiDistrictConfig::spec_lookup(s1, id2)
                    == MultiDistrictConfig::spec_lookup(s0, id2) by {
                    MultiDistrictConfig::lemma_cfg_same_ids(s0, s1, id2);
                    MultiDistrictConfig::lemma_cfg_idx(s0, id2);
                    if MultiDistrictConfig::cfg_idx(s0, id2) >= 0 {
                        let m = MultiDistrictConfig::cfg_idx(s0, id2);
                        assert(m != j);
                        assert(s1[m] == s0[m]);
                    }
                }
            }
        } else {
            self.config.configs.push((region_id, config));
            proof {
                let s1 = self.config.configs@;
                assert(s1 =~= s0.push((region_id, config)));
                MultiDistrictConfig::lemma_cfg_idx(s0, region_id);
                assert(MultiDistrictConfig::cfg_idx(s0, region_id) < 0) by {
                    if MultiDistrictConfig::cfg_idx(s0, region_id) >= 0 {
                        let m = MultiDistrictConfig::cfg_idx(s0, region_id);
                        assert(s0[m].0 != region_id);
                    }
                }
                MultiDistrictConfig::lemma_cfg_push(s0, (region_id, config), region_id);
                assert forall|id2: u32|
                    id2 != region_id implies #[trigger] MultiDistrictConfig::spec_lookup(s1, id2)
                    == MultiDistrictConfig::spec_lookup(s0, id2) by {
                    MultiDistrictConfig::lemma_cfg_push(s0, (region_id, config), id2);
                }
            }
        }
        self.config.on_region_modified(&mut self.tree, region_id);
    }

    /// Drop a region's district configuration; the now-unconfigured
    /// region's seats are then cleared.
    pub fn remove_config(&mut self, region_id: u32)
        requires
            old(self).wf(),
        ensures
            final(self).wf(),
            MultiDistrictConfig::spec_lookup(final(self).config.configs@, region_id)
                is None,
            forall|id2: u32|
                id2 != region_id ==> #[trigger] MultiDistrictConfig::spec_lookup(
                    final(self).config.configs@,
                    id2,
                ) == MultiDistrictConfig::spec_lookup(old(self).config.configs@, id2),
            ElectionTree::same_structure(old(self).tree, final(self).tree),
            forall|x: u32, c: u32|
                old(self).tree.valid_region(x) ==> #[trigger] final(self).tree.votes_of(x, c)
                    == old(self).tree.votes_of(x, c),
            forall|c: u32|
                #[trigger] final(self).tree.root_votes(c) == old(self).tree.root_votes(c),
            old(self).tree.valid_region(region_id) ==> forall|c: u32|
                #[trigger] final(self).tree.seats_of(region_id, c) == 0,
    {
        let ghost s0 = self.config.configs@;
        let n = self.config.configs.len();
        let mut j: usize = 0;
        let mut out: Vec<(u32, DistrictConfig)> = Vec::new();
        proof {
            assert(s0.take(0) =~= Seq::<(u32, DistrictConfig)>::empty());
        }
        while j < n
            invariant
                j <= n,
                n == self.config.configs@.len(),
                self.config.configs@ == s0,
                self.tree == old(self).tree,
                forall|k: int| 0 <= k < out@.len() ==> out@[k].0 != region_id,
                forall|id2: u32|
                    id2 != region_id ==> #[trigger] MultiDistrictConfig::spec_lookup(out@, id2)
                        == MultiDistrictConfig::spec_lookup(s0.take(j as int), id2),
            decreases n - j,
        {
            let ghost prev = out@;
            let e = self.config.configs[j];
            if e.0 != region_id {
                out.push(e);
            }
            proof {
                assert(s0.take(j as int + 1) =~= s0.take(j as int).push(s0[j as int]));
                assert forall|id2: u32|
                    id2 != region_id implies #[trigger] MultiDistrictConfig::spec_lookup(
                    out@,
                    id2,
                ) == MultiDistrictConfig::spec_lookup(s0.take(j as int + 1), id2) by {
                    MultiDistrictConfig::lemma_cfg_push(
                        s0.take(j as int),
                        s0[j as int],
                        id2,
                    );
                    if e.0 != region_id {
                        assert(out@ =~= prev.push(e));
                        MultiDistrictConfig::lemma_cfg_push(prev, e, id2);
                        MultiDistrictConfig::lemma_cfg_same_ids(
                            prev,
                            prev,
                            id2,
                        );
                    }
                }
            }
            j = j + 1;
        }
        proof {
            assert(s0.take(n as int) =~= s0);
        }
        self.config.configs = out;
        proof {
            let s1 = self.config.configs@;
            MultiDistrictConfig::lemma_cfg_idx(s1, region_id);
            if MultiDistrictConfig::cfg_idx(s1, region_id) >= 0 {
                let m = MultiDistrictConfig::cfg_idx(s1, region_id);
                assert(s1[m].0 != region_id);
            }
        }
        self.config.on_region_modified(&mut self.tree, region_id);
    }
}

} // verus!
