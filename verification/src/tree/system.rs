//! The election system façade: one aggregation tree, one district
//! configuration, leaf-only vote writes, and event dispatch.

use vstd::prelude::*;

use crate::tree::configs::ElectionConfig;
use crate::tree::errors::SystemError;
use crate::tree::events::ElectionEvent;
use crate::tree::region_results::{sat_add_u32, RegionResults};
use crate::tree::ElectionTree;

verus! {

/// One tree and one configuration. Votes may only be recorded at leaf
/// regions; every mutation is performed on the tree first and then
/// reported to the configuration.
pub struct ElectionSystem<T: ElectionConfig> {
    pub tree: ElectionTree,
    pub config: T,
}

/// How one propagated vote delta reads at the level of vote tallies:
/// saturating on the region and each ancestor, exact at candidacies and
/// regions it does not touch.
pub open spec fn votes_updated(
    pre: ElectionTree,
    post: ElectionTree,
    region: u32,
    c: u32,
    d: int,
) -> bool {
    &&& (forall|x: u32|
        #[trigger] pre.valid_region(x) ==> post.votes_of(x, c) == if pre.on_chain(region, x) {
            sat_add_u32(pre.votes_of(x, c), d)
        } else {
            pre.votes_of(x, c)
        })
    &&& (forall|x: u32, c2: u32|
        pre.valid_region(x) && c2 != c ==> #[trigger] post.votes_of(x, c2) == pre.votes_of(
            x,
            c2,
        ))
    &&& post.root_votes(c) == sat_add_u32(pre.root_votes(c), d)
    &&& (forall|c2: u32| c2 != c ==> #[trigger] post.root_votes(c2) == pre.root_votes(c2))
}

/// A vote count after a moved snapshot value was first subtracted (on
/// the old ancestor chain) and then added back (on the new one), each
/// step saturating.
pub open spec fn moved_votes(v: u32, mv: u32, in_old: bool, in_new: bool) -> u32 {
    let m = if in_old {
        sat_add_u32(v, -(mv as int))
    } else {
        v
    };
    if in_new {
        sat_add_u32(m, mv as int)
    } else {
        m
    }
}

/// How a re-parent of region `r` under `q` reads at the level of vote
/// tallies: the moved region keeps its own votes; every old ancestor
/// loses them, every new ancestor gains them, and the global root sees
/// them leave and return.
pub open spec fn votes_moved(pre: ElectionTree, post: ElectionTree, r: u32, q: u32) -> bool {
    &&& (forall|c: u32| #[trigger] post.votes_of(r, c) == pre.votes_of(r, c))
    &&& (forall|x: u32, c: u32|
        pre.valid_region(x) && x != r ==> #[trigger] post.votes_of(x, c) == moved_votes(
            pre.votes_of(x, c),
            pre.votes_of(r, c),
            pre.the_chain(r).contains(x),
            x == q || pre.the_chain(q).contains(x),
        ))
    &&& (forall|c: u32|
        #[trigger] post.root_votes(c) == moved_votes(pre.root_votes(c), pre.votes_of(r, c), true, true))
}

impl<T: ElectionConfig> ElectionSystem<T> {
    pub open spec fn wf(self) -> bool {
        self.tree.wf()
    }

    /// Build a system around a tree, clearing the seats of every current
    /// leaf region so the configuration starts from a clean slate.
    pub fn create(tree: ElectionTree, config: T) -> (r: ElectionSystem<T>)
        requires
            tree.wf(),
        ensures
            r.wf(),
            ElectionTree::same_structure(tree, r.tree),
            forall|x: u32, c: u32|
                tree.valid_region(x) ==> #[trigger] r.tree.votes_of(x, c) == tree.votes_of(x, c),
            forall|c: u32| #[trigger] r.tree.root_votes(c) == tree.root_votes(c),
            forall|x: u32, c: u32|
                tree.valid_region(x) && tree.spec_is_leaf(x) ==> #[trigger] r.tree.seats_of(x, c)
                    == 0,
            forall|x: u32, c: u32|
                tree.valid_region(x) ==> #[trigger] r.tree.seats_of(x, c) <= tree.seats_of(x, c),
            forall|c: u32| #[trigger] r.tree.root_seats(c) <= tree.root_seats(c),
            r.config == config,
    {
        let mut system = ElectionSystem { tree, config };
        system.clear();
        system
    }

    /// Zero the seats of every leaf region.
    pub fn clear(&mut self)
        requires
            old(self).wf(),
        ensures
            final(self).wf(),
            ElectionTree::same_structure(old(self).tree, final(self).tree),
            forall|x: u32, c: u32|
                old(self).tree.valid_region(x) ==> #[trigger] final(self).tree.votes_of(x, c)
                    == old(self).tree.votes_of(x, c),
            forall|c: u32|
                #[trigger] final(self).tree.root_votes(c) == old(self).tree.root_votes(c),
            forall|x: u32, c: u32|
                old(self).tree.valid_region(x) && old(self).tree.spec_is_leaf(x)
                    ==> #[trigger] final(self).tree.seats_of(x, c) == 0,
            forall|x: u32, c: u32|
                old(self).tree.valid_region(x) ==> #[trigger] final(self).tree.seats_of(x, c)
                    <= old(self).tree.seats_of(x, c),
            forall|c: u32|
                #[trigger] final(self).tree.root_seats(c) <= old(self).tree.root_seats(c),
            final(self).config == old(self).config,
    {
        let ghost t0 = self.tree;
        let leaves = self.tree.leaf_region_ids();
        let n = leaves.len();
        let mut j: usize = 0;
        while j < n
            invariant
                j <= n,
                n == leaves@.len(),
                self.tree.wf(),
                ElectionTree::same_structure(t0, self.tree),
                forall|x: u32, c: u32|
                    t0.valid_region(x) ==> #[trigger] self.tree.votes_of(x, c) == t0.votes_of(
                        x,
                        c,
                    ),
                forall|c: u32| #[trigger] self.tree.root_votes(c) == t0.root_votes(c),
                forall|x: u32, c: u32|
                    t0.valid_region(x) ==> #[trigger] self.tree.seats_of(x, c) <= t0.seats_of(
                        x,
                        c,
                    ),
                forall|c: u32| #[trigger] self.tree.root_seats(c) <= t0.root_seats(c),
                forall|i1: int, i2: int| 0 <= i1 < i2 < n ==> leaves@[i1] != leaves@[i2],
                forall|x: u32| leaves@.contains(x) <==> (t0.valid_region(x) && t0.spec_is_leaf(x)),
                forall|k: int, c: u32|
                    0 <= k < j ==> #[trigger] self.tree.seats_of(leaves@[k], c) == 0,
                self.config == old(self).config,
            decreases n - j,
        {
            let ghost mid = self.tree;
            let res = self.tree.clear_region(leaves[j]);
            proof {
                let fin = self.tree;
                let rid = leaves@[j as int];
                match res {
                    Ok(_) => {
                        assert(ElectionTree::region_cleared(mid, fin, rid));
                        let snap0 = ElectionTree::seats_snapshot(mid.results_of(rid).entries@);
                        assert forall|x: u32, c: u32|
                            t0.valid_region(x) implies #[trigger] fin.votes_of(x, c)
                            == t0.votes_of(x, c) by {
                            assert(mid.valid_region(x));
                            assert(mid.votes_of(x, c) == t0.votes_of(x, c));
                            if mid.on_chain(rid, x) {
                                assert(ElectionTree::table_snap_applied(
                                    mid.results_of(x),
                                    fin.results_of(x),
                                    snap0,
                                    -1,
                                ));
                                crate::tree::region_results::lemma_idx_of(snap0, c);
                                if crate::tree::region_results::idx_of(snap0, c) >= 0 {
                                    let ix = crate::tree::region_results::idx_of(snap0, c);
                                    assert(snap0[ix].1.votes == 0);
                                    assert(fin.results_of(x).spec_get(c) == Some(
                                        crate::tree::region_results::tally_apply(
                                            mid.results_of(x).spec_get(c),
                                            -1 * snap0[ix].1.votes,
                                            -1 * snap0[ix].1.seats,
                                        ),
                                    ));
                                } else {
                                    assert(fin.results_of(x).spec_get(c) == mid.results_of(
                                        x,
                                    ).spec_get(c));
                                }
                            } else {
                                assert(fin.rbox(x).results == mid.rbox(x).results);
                            }
                        }
                        assert forall|c: u32| #[trigger] fin.root_votes(c) == t0.root_votes(c) by {
                            assert(mid.root_votes(c) == t0.root_votes(c));
                            assert(ElectionTree::table_snap_applied(
                                mid.root.results,
                                fin.root.results,
                                snap0,
                                -1,
                            ));
                            crate::tree::region_results::lemma_idx_of(snap0, c);
                            if crate::tree::region_results::idx_of(snap0, c) >= 0 {
                                let ix = crate::tree::region_results::idx_of(snap0, c);
                                assert(snap0[ix].1.votes == 0);
                                assert(fin.root.results.spec_get(c) == Some(
                                    crate::tree::region_results::tally_apply(
                                        mid.root.results.spec_get(c),
                                        -1 * snap0[ix].1.votes,
                                        -1 * snap0[ix].1.seats,
                                    ),
                                ));
                            } else {
                                assert(fin.root.results.spec_get(c) == mid.root.results.spec_get(
                                    c,
                                ));
                            }
                        }
                        assert forall|x: u32| t0.valid_region(x) <==> #[trigger] fin.valid_region(
                            x,
                        ) by {
                            assert(mid.valid_region(x) <==> fin.valid_region(x));
                        }
                        assert forall|x: u32| #[trigger] t0.valid_region(x) implies {
                            &&& fin.parent_of(x) == t0.parent_of(x)
                            &&& fin.children_of(x) == t0.children_of(x)
                            &&& fin.rbox(x).region == t0.rbox(x).region
                        } by {
                            assert(mid.valid_region(x));
                        }
                        assert(ElectionTree::same_structure(t0, fin));
                        assert forall|x: u32, c: u32|
                            t0.valid_region(x) implies #[trigger] fin.seats_of(x, c)
                            <= t0.seats_of(x, c) by {
                            assert(mid.valid_region(x));
                            assert(mid.seats_of(x, c) <= t0.seats_of(x, c));
                            if mid.on_chain(rid, x) {
                                assert(ElectionTree::table_snap_applied(
                                    mid.results_of(x),
                                    fin.results_of(x),
                                    snap0,
                                    -1,
                                ));
                                crate::tree::region_results::lemma_idx_of(snap0, c);
                                if crate::tree::region_results::idx_of(snap0, c) >= 0 {
                                    let ix = crate::tree::region_results::idx_of(snap0, c);
                                    assert(fin.results_of(x).spec_get(c) == Some(
                                        crate::tree::region_results::tally_apply(
                                            mid.results_of(x).spec_get(c),
                                            -1 * snap0[ix].1.votes,
                                            -1 * snap0[ix].1.seats,
                                        ),
                                    ));
                                } else {
                                    assert(fin.results_of(x).spec_get(c) == mid.results_of(
                                        x,
                                    ).spec_get(c));
                                }
                            } else {
                                assert(fin.rbox(x).results == mid.rbox(x).results);
                            }
                        }
                        assert forall|c: u32| true implies #[trigger] fin.root_seats(c)
                            <= t0.root_seats(c) by {
                            assert(mid.root_seats(c) <= t0.root_seats(c));
                            assert(ElectionTree::table_snap_applied(
                                mid.root.results,
                                fin.root.results,
                                snap0,
                                -1,
                            ));
                            crate::tree::region_results::lemma_idx_of(snap0, c);
                            if crate::tree::region_results::idx_of(snap0, c) >= 0 {
                                let ix = crate::tree::region_results::idx_of(snap0, c);
                                assert(fin.root.results.spec_get(c) == Some(
                                    crate::tree::region_results::tally_apply(
                                        mid.root.results.spec_get(c),
                                        -1 * snap0[ix].1.votes,
                                        -1 * snap0[ix].1.seats,
                                    ),
                                ));
                            } else {
                                assert(fin.root.results.spec_get(c) == mid.root.results.spec_get(
                                    c,
                                ));
                            }
                        }
                        // leaves cleared so far stay cleared: no leaf is an
                        // ancestor of another region
                        assert forall|k: int, c: u32| 0 <= k < j + 1 implies #[trigger] fin.seats_of(
                            leaves@[k],
                            c,
                        ) == 0 by {
                            let x = leaves@[k];
                            assert(leaves@.contains(x));
                            assert(t0.valid_region(x) && t0.spec_is_leaf(x));
                            assert(mid.valid_region(x));
                            if k == j {
                                assert(fin.seats_of(rid, c) == 0);
                            } else {
                                assert(mid.seats_of(x, c) == 0);
                                assert(x != rid);
                                assert(!mid.on_chain(rid, x)) by {
                                    if mid.the_chain(rid).contains(x) {
                                        mid.lemma_chain_nonleaf(rid);
                                        let i = choose|i: int|
                                            0 <= i < mid.the_chain(rid).len() && mid.the_chain(
                                                rid,
                                            )[i] == x;
                                        assert(!mid.spec_is_leaf(x));
                                        assert(mid.children_of(x) == t0.children_of(x));
                                    }
                                }
                                assert(fin.rbox(x).results == mid.rbox(x).results);
                            }
                        }
                    },
                    Err(_) => {
                        assert(fin == mid);
                        assert(!mid.valid_region(leaves@[j as int]));
                        assert(mid.valid_region(leaves@[j as int])) by {
                            assert(leaves@.contains(leaves@[j as int]));
                            assert(t0.valid_region(leaves@[j as int]));
                        }
                    },
                }
            }
            j = j + 1;
        }
        proof {
            let fin = self.tree;
            assert forall|x: u32, c: u32|
                t0.valid_region(x) && t0.spec_is_leaf(x) implies #[trigger] fin.seats_of(x, c)
                == 0 by {
                assert(leaves@.contains(x));
                let k = choose|k: int| 0 <= k < leaves@.len() && leaves@[k] == x;
                assert(fin.seats_of(leaves@[k], c) == 0);
            }
        }
    }

    /// Record a vote delta at a leaf region; it rolls up to every
    /// ancestor and to the global root, and the configuration is then
    /// notified. Non-leaf regions are refused.
    pub fn increase_votes(&mut self, region: u32, candidacy: u32, votes: i32) -> (r: Result<
        (),
        SystemError,
    >)
        requires
            old(self).wf(),
        ensures
            final(self).wf(),
            match r {
                Ok(_) => old(self).tree.valid_region(region) && old(self).tree.spec_is_leaf(region)
                    && old(self).tree.valid_candidacy(candidacy) && votes_updated(
                    old(self).tree,
                    final(self).tree,
                    region,
                    candidacy,
                    votes as int,
                ) && ElectionTree::same_structure(old(self).tree, final(self).tree),
                Err(e) => match e {
                    SystemError::RegionNotFound => !old(self).tree.valid_region(region) && final(self).tree == old(self).tree,
                    SystemError::NotLeafRegion => old(self).tree.valid_region(region) && !old(self).tree.spec_is_leaf(region) && final(self).tree == old(self).tree,
                    SystemError::CandidacyNotFound => old(self).tree.valid_region(region) && old(self).tree.spec_is_leaf(region) && !old(self).tree.valid_candidacy(candidacy)
                        && final(self).tree == old(self).tree,
                    _ => false,
                },
            },
            (r is Ok && old(self).tree.rollup_votes() && (forall|x: u32|
                #[trigger] old(self).tree.on_chain(region, x) && old(self).tree.valid_region(x)
                    ==> 0 <= old(self).tree.votes_of(x, candidacy) + votes <= u32::MAX) && 0 <= old(self).tree.root_votes(candidacy) + votes <= u32::MAX)
                ==> final(self).tree.rollup_votes(),
    {
        let ghost t0 = self.tree;
        let leaf = match self.tree.is_leaf(region) {
            Ok(b) => b,
            Err(_) => {
                return Err(SystemError::RegionNotFound);
            },
        };
        if !leaf {
            return Err(SystemError::NotLeafRegion);
        }
        match self.tree.increase_votes(region, candidacy, votes) {
            Ok(_) => {},
            Err(e) => {
                return Err(SystemError::from(e));
            },
        }
        let ghost t1 = self.tree;
        self.config.on_event(
            &mut self.tree,
            ElectionEvent::IncreaseVotes { region, candidacy, votes },
        );
        proof {
            let fin = self.tree;
            assert(ElectionTree::delta_applied(t0, t1, region, candidacy, votes as int, 0));
            assert forall|x: u32|
                #[trigger] t0.valid_region(x) implies fin.votes_of(x, candidacy) == (if
            t0.on_chain(region, x) {
                sat_add_u32(t0.votes_of(x, candidacy), votes as int)
            } else {
                t0.votes_of(x, candidacy)
            }) by {
                assert(t1.valid_region(x));
                assert(fin.votes_of(x, candidacy) == t1.votes_of(x, candidacy));
                if t0.on_chain(region, x) {
                    assert(crate::tree::table_updated(
                        t0.results_of(x),
                        t1.results_of(x),
                        candidacy,
                        votes as int,
                        0,
                    ));
                } else {
                    assert(t1.rbox(x).results == t0.rbox(x).results);
                }
            }
            assert forall|x: u32, c2: u32|
                t0.valid_region(x) && c2 != candidacy implies #[trigger] fin.votes_of(x, c2)
                == t0.votes_of(x, c2) by {
                assert(t1.valid_region(x));
                assert(fin.votes_of(x, c2) == t1.votes_of(x, c2));
                if t0.on_chain(region, x) {
                    assert(crate::tree::table_updated(
                        t0.results_of(x),
                        t1.results_of(x),
                        candidacy,
                        votes as int,
                        0,
                    ));
                } else {
                    assert(t1.rbox(x).results == t0.rbox(x).results);
                }
            }
            assert(fin.root_votes(candidacy) == sat_add_u32(t0.root_votes(candidacy), votes as int))
                by {
                assert(crate::tree::table_updated(
                    t0.root.results,
                    t1.root.results,
                    candidacy,
                    votes as int,
                    0,
                ));
                assert(fin.root_votes(candidacy) == t1.root_votes(candidacy));
            }
            assert forall|c2: u32| c2 != candidacy implies #[trigger] fin.root_votes(c2)
                == t0.root_votes(c2) by {
                assert(crate::tree::table_updated(
                    t0.root.results,
                    t1.root.results,
                    candidacy,
                    votes as int,
                    0,
                ));
                assert(fin.root_votes(c2) == t1.root_votes(c2));
            }
            assert forall|x: u32| t0.valid_region(x) <==> #[trigger] fin.valid_region(x) by {
                assert(t1.valid_region(x) <==> fin.valid_region(x));
            }
            assert forall|x: u32| #[trigger] t0.valid_region(x) implies {
                &&& fin.parent_of(x) == t0.parent_of(x)
                &&& fin.children_of(x) == t0.children_of(x)
                &&& fin.rbox(x).region == t0.rbox(x).region
            } by {
                assert(t1.valid_region(x));
            }
            assert(ElectionTree::same_structure(t0, fin));
            // the rollup invariant survives an unclamped leaf delta
            if t0.rollup_votes() && (forall|x: u32|
                #[trigger] t0.on_chain(region, x) && t0.valid_region(x) ==> 0 <= t0.votes_of(
                    x,
                    candidacy,
                ) + votes <= u32::MAX) && 0 <= t0.root_votes(candidacy) + votes <= u32::MAX {
                ElectionTree::lemma_leaf_delta_preserves_rollup(
                    t0,
                    t1,
                    region,
                    candidacy,
                    votes as int,
                    0,
                );
                assert(ElectionTree::same_structure(t1, fin));
                ElectionTree::lemma_rollup_votes_frame(t1, fin);
            }
        }
        Ok(())
    }

    /// Set a leaf region's vote tally outright: the signed difference
    /// from the current value is propagated to every ancestor and the
    /// global root, then the configuration is notified. Non-leaf regions
    /// are refused and nothing changes on any failure.
    pub fn set_votes(&mut self, region: u32, candidacy: u32, votes: u32) -> (r: Result<
        (),
        SystemError,
    >)
        requires
            old(self).wf(),
            votes <= i32::MAX,
            old(self).tree.votes_of(region, candidacy) <= i32::MAX,
        ensures
            final(self).wf(),
            match r {
                Ok(_) => old(self).tree.valid_region(region) && old(self).tree.spec_is_leaf(
                    region,
                ) && old(self).tree.valid_candidacy(candidacy) && votes_updated(
                    old(self).tree,
                    final(self).tree,
                    region,
                    candidacy,
                    votes - old(self).tree.votes_of(region, candidacy),
                ) && final(self).tree.votes_of(region, candidacy) == votes
                    && ElectionTree::same_structure(old(self).tree, final(self).tree),
                Err(e) => match e {
                    SystemError::RegionNotFound => !old(self).tree.valid_region(region) && final(self).tree == old(self).tree,
                    SystemError::NotLeafRegion => old(self).tree.valid_region(region) && !old(self).tree.spec_is_leaf(region) && final(self).tree == old(self).tree,
                    SystemError::CandidacyNotFound => old(self).tree.valid_region(region) && old(self).tree.spec_is_leaf(region) && !old(self).tree.valid_candidacy(candidacy) && final(self).tree == old(self).tree,
                    _ => false,
                },
            },
    {
        let leaf = match self.tree.is_leaf(region) {
            Ok(b) => b,
            Err(_) => {
                return Err(SystemError::RegionNotFound);
            },
        };
        if !leaf {
            return Err(SystemError::NotLeafRegion);
        }
        let current = match self.tree.get_votes(region, candidacy) {
            Ok(v) => v,
            Err(e) => {
                return Err(SystemError::from(e));
            },
        };
        let offset: i32 = votes as i32 - current as i32;
        let r = self.increase_votes(region, candidacy, offset);
        proof {
            if r is Ok {
                assert(self.tree.votes_of(region, candidacy) == sat_add_u32(
                    current,
                    offset as int,
                ));
            }
        }
        r
    }

    /// Move a region under a new parent, with an event before and after.
    /// Cycles are refused; the configuration may rewrite seats on either
    /// event, but votes and the region structure follow the tree's move
    /// exactly.
    pub fn set_parent(&mut self, region: u32, parent: u32) -> (r: Result<(), SystemError>)
        requires
            old(self).wf(),
        ensures
            final(self).wf(),
            match r {
                Ok(_) => {
                    &&& old(self).tree.valid_region(region)
                    &&& old(self).tree.valid_region(parent)
                    &&& region != parent
                    &&& !old(self).tree.the_chain(parent).contains(region)
                    &&& final(self).tree.parent_of(region) == Some(parent)
                    &&& (forall|x: u32|
                        #[trigger] old(self).tree.valid_region(x) && x != region ==> final(self).tree.parent_of(x) == old(self).tree.parent_of(x))
                    &&& (forall|x: u32|
                        old(self).tree.valid_region(x) <==> #[trigger] final(self).tree.valid_region(x))
                    &&& final(self).tree.candidacies@ == old(self).tree.candidacies@
                    &&& final(self).tree.children_of(parent).contains(region)
                    &&& votes_moved(old(self).tree, final(self).tree, region, parent)
                },
                Err(e) => {
                    &&& ElectionTree::same_structure(old(self).tree, final(self).tree)
                    &&& (forall|x: u32, c: u32|
                        old(self).tree.valid_region(x) ==> #[trigger] final(self).tree.votes_of(
                            x,
                            c,
                        ) == old(self).tree.votes_of(x, c))
                    &&& (forall|c: u32|
                        #[trigger] final(self).tree.root_votes(c) == old(self).tree.root_votes(c))
                    &&& match e {
                        SystemError::RegionNotFound => !old(self).tree.valid_region(region) || !old(self).tree.valid_region(parent),
                        SystemError::NotParentable => old(self).tree.valid_region(region) && old(self).tree.valid_region(parent) && (region == parent || old(self).tree.the_chain(parent).contains(region)),
                        _ => false,
                    }
                },
            },
    {
        let ghost t0 = self.tree;
        let current_parent = match self.tree.get_parent(region) {
            Ok(p) => p,
            Err(e) => {
                return Err(SystemError::from(e));
            },
        };
        self.config.on_event(&mut self.tree, ElectionEvent::BeforeSetParent { region, parent });
        let ghost t1 = self.tree;
        proof {
            Self::lemma_chains_preserved(t0, t1);
        }
        match self.tree.set_parent(region, parent) {
            Ok(_) => {},
            Err(e) => {
                proof {
                    assert(self.tree == t1);
                }
                return Err(SystemError::from(e));
            },
        }
        let ghost t2 = self.tree;
        self.config.on_event(
            &mut self.tree,
            ElectionEvent::AfterSetParent { region, parent, last_parent: current_parent },
        );
        proof {
            let t3 = self.tree;
            assert(ElectionTree::set_parent_applied(t1, t2, region, parent));
            assert(t2.results_of(region) == t1.results_of(region));
            assert forall|x: u32, c: u32|
                t1.valid_region(x) && x != region implies #[trigger] t2.results_of(x).spec_get(c)
                == ElectionTree::moved_get(
                t1.results_of(x).spec_get(c),
                t1.results_of(region).entries@,
                c,
                t1.the_chain(region).contains(x),
                x == parent || t1.the_chain(parent).contains(x),
            ) by {}
            assert forall|c: u32| true implies #[trigger] t2.root_entry(c)
                == ElectionTree::moved_get(
                t1.root_entry(c),
                t1.results_of(region).entries@,
                c,
                true,
                true,
            ) by {}
            Self::lemma_votes_of_set_parent(t0, t1, t2, region, parent);
            // the closing event keeps votes and structure
            assert forall|c: u32| #[trigger] t3.votes_of(region, c) == t0.votes_of(region, c) by {
                assert(t2.valid_region(region));
                assert(t3.votes_of(region, c) == t2.votes_of(region, c));
            }
            assert forall|x: u32, c: u32|
                t0.valid_region(x) && x != region implies #[trigger] t3.votes_of(x, c)
                == moved_votes(
                t0.votes_of(x, c),
                t0.votes_of(region, c),
                t0.the_chain(region).contains(x),
                x == parent || t0.the_chain(parent).contains(x),
            ) by {
                assert(t1.valid_region(x));
                assert(t2.valid_region(x));
                assert(t3.votes_of(x, c) == t2.votes_of(x, c));
            }
            assert forall|c: u32| #[trigger] t3.root_votes(c) == moved_votes(
                t0.root_votes(c),
                t0.votes_of(region, c),
                true,
                true,
            ) by {
                assert(t3.root_votes(c) == t2.root_votes(c));
            }
            assert(votes_moved(t0, t3, region, parent));
            assert(t3.parent_of(region) == Some(parent)) by {
                assert(t2.valid_region(region));
                assert(t2.parent_of(region) == Some(parent));
            }
            assert forall|x: u32|
                #[trigger] t0.valid_region(x) && x != region implies t3.parent_of(x)
                == t0.parent_of(x) by {
                assert(t1.valid_region(x));
                assert(t2.valid_region(x));
                assert(t1.parent_of(x) == t0.parent_of(x));
                assert(t2.parent_of(x) == t1.parent_of(x));
                assert(t3.parent_of(x) == t2.parent_of(x));
            }
            assert forall|x: u32| t0.valid_region(x) <==> #[trigger] t3.valid_region(x) by {
                assert(t0.valid_region(x) <==> t1.valid_region(x));
                assert(t1.valid_region(x) <==> t2.valid_region(x));
            }
            assert(t3.children_of(parent).contains(region)) by {
                assert(t1.valid_region(parent));
                assert(t2.valid_region(parent));
                let had_parent = t1.parent_of(region) is Some;
                let p0 = t1.parent_of(region)->0;
                if had_parent && p0 == parent {
                    assert(t2.children_of(parent).last() == region);
                    assert(t2.children_of(parent).contains(region));
                } else if had_parent {
                    assert(t2.children_of(parent) == t1.children_of(parent).push(region));
                    assert(t2.children_of(parent).last() == region);
                    assert(t2.children_of(parent).contains(region));
                } else {
                    assert(t2.children_of(parent) == t1.children_of(parent).push(region));
                    assert(t2.children_of(parent).last() == region);
                    assert(t2.children_of(parent).contains(region));
                }
                assert(t3.children_of(parent) == t2.children_of(parent));
            }
        }
        Ok(())
    }

    /// A structure-preserving step keeps every ancestor chain.
    proof fn lemma_chains_preserved(t0: ElectionTree, t1: ElectionTree)
        requires
            t0.wf(),
            ElectionTree::same_structure(t0, t1),
        ensures
            forall|x: u32| t0.valid_region(x) <==> #[trigger] t1.valid_region(x),
            forall|x: u32|
                #[trigger] t0.valid_region(x) ==> t1.the_chain(x) == t0.the_chain(x),
    {
        ElectionTree::lemma_chain_frame(t0, t1);
        assert forall|x: u32| #[trigger] t0.valid_region(x) implies t1.the_chain(x)
            == t0.the_chain(x) by {
            assert(t0.has_chain(x));
        }
    }

    /// One entry's vote count under the snapshot-out, snapshot-in move.
    proof fn lemma_moved_votes_projection(
        e: Option<crate::tree::single_result::SingleResult>,
        snap: Seq<(u32, crate::tree::single_result::SingleResult)>,
        c: u32,
        in_old: bool,
        in_new: bool,
        mv: u32,
    )
        requires
            ({
                let ix = crate::tree::region_results::idx_of(snap, c);
                if ix >= 0 {
                    0 <= ix < snap.len() && snap[ix].1.votes == mv
                } else {
                    mv == 0
                }
            }),
        ensures
            ({
                let r = ElectionTree::moved_get(e, snap, c, in_old, in_new);
                (match r {
                    Some(x) => x.votes,
                    None => 0u32,
                }) == moved_votes(
                    match e {
                        Some(x) => x.votes,
                        None => 0u32,
                    },
                    mv,
                    in_old,
                    in_new,
                )
            }),
    {
    }

    /// Project the exact tally move of a tree-level re-parent down to
    /// vote counts.
    #[verifier::rlimit(100)]
    proof fn lemma_votes_of_set_parent(
        t0: ElectionTree,
        t1: ElectionTree,
        t2: ElectionTree,
        region: u32,
        parent: u32,
    )
        requires
            t0.wf(),
            t1.wf(),
            ElectionTree::same_structure(t0, t1),
            forall|x: u32, c: u32|
                t0.valid_region(x) ==> #[trigger] t1.votes_of(x, c) == t0.votes_of(x, c),
            forall|c: u32| #[trigger] t1.root_votes(c) == t0.root_votes(c),
            t1.valid_region(region),
            t1.valid_region(parent),
            t2.results_of(region) == t1.results_of(region),
            forall|x: u32, c: u32|
                t1.valid_region(x) && x != region ==> #[trigger] t2.results_of(x).spec_get(c)
                    == ElectionTree::moved_get(
                    t1.results_of(x).spec_get(c),
                    t1.results_of(region).entries@,
                    c,
                    t1.the_chain(region).contains(x),
                    x == parent || t1.the_chain(parent).contains(x),
                ),
            forall|c: u32|
                #[trigger] t2.root_entry(c) == ElectionTree::moved_get(
                    t1.root_entry(c),
                    t1.results_of(region).entries@,
                    c,
                    true,
                    true,
                ),
        ensures
            forall|c: u32| #[trigger] t2.votes_of(region, c) == t0.votes_of(region, c),
            forall|x: u32, c: u32|
                t0.valid_region(x) && x != region ==> #[trigger] t2.votes_of(x, c) == moved_votes(
                    t0.votes_of(x, c),
                    t0.votes_of(region, c),
                    t0.the_chain(region).contains(x),
                    x == parent || t0.the_chain(parent).contains(x),
                ),
            forall|c: u32|
                #[trigger] t2.root_votes(c) == moved_votes(
                    t0.root_votes(c),
                    t0.votes_of(region, c),
                    true,
                    true,
                ),
    {
        Self::lemma_chains_preserved(t0, t1);
        let snap = t1.results_of(region).entries@;
        // a snapshot hit carries exactly the region's own vote count
        assert forall|c: u32| ({
            let ix = #[trigger] crate::tree::region_results::idx_of(snap, c);
            &&& (ix >= 0 ==> 0 <= ix < snap.len() && snap[ix].1.votes == t1.votes_of(region, c))
            &&& (ix < 0 ==> t1.votes_of(region, c) == 0)
        }) by {
            crate::tree::region_results::lemma_idx_of(snap, c);
        }
        assert forall|c: u32| #[trigger] t2.votes_of(region, c) == t0.votes_of(region, c) by {
            assert(t2.results_of(region) == t1.results_of(region));
            assert(t1.votes_of(region, c) == t0.votes_of(region, c));
        }
        assert forall|x: u32, c: u32|
            t0.valid_region(x) && x != region implies #[trigger] t2.votes_of(x, c) == moved_votes(
            t0.votes_of(x, c),
            t0.votes_of(region, c),
            t0.the_chain(region).contains(x),
            x == parent || t0.the_chain(parent).contains(x),
        ) by {
            assert(t1.valid_region(x));
            let ix = crate::tree::region_results::idx_of(snap, c);
            let in_old = t1.the_chain(region).contains(x);
            let in_new = x == parent || t1.the_chain(parent).contains(x);
            assert(t2.results_of(x).spec_get(c) == ElectionTree::moved_get(
                t1.results_of(x).spec_get(c),
                snap,
                c,
                in_old,
                in_new,
            ));
            Self::lemma_moved_votes_projection(
                t1.results_of(x).spec_get(c),
                snap,
                c,
                in_old,
                in_new,
                t1.votes_of(region, c),
            );
            assert(t1.the_chain(region) == t0.the_chain(region));
            assert(t1.the_chain(parent) == t0.the_chain(parent));
            assert(t1.votes_of(x, c) == t0.votes_of(x, c));
        }
        assert forall|c: u32| #[trigger] t2.root_votes(c) == moved_votes(
            t0.root_votes(c),
            t0.votes_of(region, c),
            true,
            true,
        ) by {
            assert(t2.root_entry(c) == ElectionTree::moved_get(
                t1.root_entry(c),
                snap,
                c,
                true,
                true,
            ));
            let ix = crate::tree::region_results::idx_of(snap, c);
            crate::tree::region_results::lemma_idx_of(snap, c);
            if ix >= 0 {
                assert(snap[ix].1.votes == t1.votes_of(region, c));
            } else {
                assert(t1.votes_of(region, c) == 0);
            }
            Self::lemma_moved_votes_projection(
                t1.root_entry(c),
                snap,
                c,
                true,
                true,
                t1.votes_of(region, c),
            );
            assert(t0.valid_region(region));
            assert(t1.root_votes(c) == t0.root_votes(c));
            assert(t1.votes_of(region, c) == t0.votes_of(region, c));
            assert(t2.root_votes(c) == moved_votes(
                t1.root_votes(c),
                t1.votes_of(region, c),
                true,
                true,
            ));
        }
    }

    /// Detach a region from its parent, with an event before and after.
    fn unset_parent(&mut self, region: u32) -> (r: Result<(), SystemError>)
        requires
            old(self).wf(),
            old(self).tree.valid_region(region) ==> old(self).tree.parent_of(region) is Some,
        ensures
            final(self).wf(),
    {
        self.config.on_event(&mut self.tree, ElectionEvent::BeforeRemoveParent(region));
        proof {
            assert(self.tree.valid_region(region) <==> old(self).tree.valid_region(region));
            if self.tree.valid_region(region) {
                assert(self.tree.parent_of(region) == old(self).tree.parent_of(region));
            }
        }
        match self.tree.unparent(region) {
            Ok(_) => {},
            Err(e) => {
                return Err(SystemError::from(e));
            },
        }
        self.config.on_event(&mut self.tree, ElectionEvent::AfterRemoveParent(region));
        Ok(())
    }

    /// A region's whole tally table.
    pub fn get_results(&self, region: u32) -> (r: Result<&RegionResults, SystemError>)
        ensures
            match r {
                Ok(res) => self.tree.valid_region(region) && *res == self.tree.results_of(region),
                Err(_) => !self.tree.valid_region(region),
            },
    {
        match self.tree.get_results(region) {
            Ok(res) => Ok(res),
            Err(e) => Err(SystemError::from(e)),
        }
    }

    /// A region's seat tally for one candidacy; zero when no entry is
    /// recorded.
    pub fn get_seats(&self, region: u32, candidacy: u32) -> (r: Result<u32, SystemError>)
        ensures
            match r {
                Ok(v) => self.tree.valid_region(region) && v == self.tree.seats_of(
                    region,
                    candidacy,
                ),
                Err(_) => !self.tree.valid_region(region),
            },
    {
        match self.tree.get_seats(region, candidacy) {
            Ok(v) => Ok(v),
            Err(e) => Err(SystemError::from(e)),
        }
    }

    /// The global root's whole tally table.
    pub fn global_results(&self) -> (r: &RegionResults)
        ensures
            *r == self.tree.root.results,
    {
        self.tree.get_global_results()
    }

    /// The global root's vote tally for a candidacy.
    pub fn global_get_votes(&self, candidacy: u32) -> (r: u32)
        ensures
            r == self.tree.root_votes(candidacy),
    {
        self.tree.global_get_votes(candidacy)
    }

    /// The global root's seat tally for a candidacy.
    pub fn global_get_seats(&self, candidacy: u32) -> (r: u32)
        ensures
            r == self.tree.root_seats(candidacy),
    {
        self.tree.global_get_seats(candidacy)
    }

    /// Create a region with a fresh id.
    pub fn create_region(&mut self, name: &str) -> (id: u32)
        requires
            old(self).wf(),
            old(self).tree.regions@.len() < u32::MAX,
        ensures
            final(self).wf(),
            id == old(self).tree.regions@.len(),
            final(self).tree.valid_region(id),
            final(self).tree.spec_is_leaf(id),
            final(self).tree.parent_of(id) is None,
    {
        self.tree.add_region(name)
    }

    /// Remove a region, optionally with its whole subtree, and notify
    /// the configuration. An unknown id is refused with nothing changed.
    pub fn remove_region(&mut self, region_id: u32, remove_children: bool) -> (r: Result<
        (),
        SystemError,
    >)
        requires
            old(self).wf(),
        ensures
            final(self).wf(),
            match r {
                Ok(_) => {
                    &&& old(self).tree.valid_region(region_id)
                    &&& !final(self).tree.valid_region(region_id)
                    &&& (forall|x: u32|
                        #[trigger] final(self).tree.valid_region(x) ==> old(self).tree.valid_region(x))
                    &&& final(self).tree.candidacies@ == old(self).tree.candidacies@
                    &&& (!remove_children ==> forall|x: u32|
                        x != region_id ==> (old(self).tree.valid_region(x) <==> #[trigger] final(self).tree.valid_region(x)))
                    &&& (remove_children ==> forall|x: u32|
                        #[trigger] old(self).tree.valid_region(x) && !old(self).tree.desc_or_self(
                            x,
                            region_id,
                        ) ==> final(self).tree.valid_region(x))
                    &&& (remove_children ==> forall|x: u32|
                        #[trigger] final(self).tree.valid_region(x) ==> !old(self).tree.desc_or_self(
                            x,
                            region_id,
                        ))
                    &&& (forall|x: u32, c: u32|
                        final(self).tree.valid_region(x) && !old(self).tree.the_chain(
                            region_id,
                        ).contains(x) ==> #[trigger] final(self).tree.votes_of(x, c) == old(self).tree.votes_of(x, c))
                    &&& (forall|x: u32|
                        #[trigger] final(self).tree.valid_region(x) && !old(self).tree.children_of(
                            region_id,
                        ).contains(x) ==> final(self).tree.parent_of(x) == old(self).tree.parent_of(x))
                    &&& (forall|x: u32|
                        #[trigger] final(self).tree.valid_region(x) && old(self).tree.children_of(
                            region_id,
                        ).contains(x) ==> final(self).tree.parent_of(x) is None)
                    &&& (forall|x: u32|
                        #[trigger] final(self).tree.valid_region(x) && old(self).tree.parent_of(
                            region_id,
                        ) != Some(x) ==> final(self).tree.children_of(x) == old(self).tree.children_of(x))
                    &&& (forall|x: u32|
                        #[trigger] final(self).tree.valid_region(x) && old(self).tree.parent_of(
                            region_id,
                        ) == Some(x) ==> ElectionTree::child_removed(
                            old(self).tree.children_of(x),
                            final(self).tree.children_of(x),
                            region_id,
                        ))
                },
                Err(e) => e is RegionNotFound && !old(self).tree.valid_region(region_id) && *final(self) == *old(self),
            },
    {
        let ghost t0 = self.tree;
        match self.tree.remove_region(region_id, remove_children) {
            Ok(_) => {},
            Err(e) => {
                return Err(SystemError::from(e));
            },
        }
        let ghost t1 = self.tree;
        self.config.on_event(
            &mut self.tree,
            ElectionEvent::RegionRemoved { region: region_id, remove_children },
        );
        proof {
            let fin = self.tree;
            assert(!t1.valid_region(region_id));
            assert forall|x: u32| t1.valid_region(x) <==> #[trigger] fin.valid_region(x) by {}
            assert forall|x: u32| #[trigger] fin.valid_region(x) implies t0.valid_region(x) by {
                assert(t1.valid_region(x));
            }
            assert forall|x: u32, c: u32|
                fin.valid_region(x) && !t0.the_chain(region_id).contains(x) implies
                #[trigger] fin.votes_of(x, c) == t0.votes_of(x, c) by {
                assert(t1.valid_region(x));
                assert(fin.votes_of(x, c) == t1.votes_of(x, c));
                assert(t1.rbox(x).results == t0.rbox(x).results);
            }
            assert forall|x: u32|
                #[trigger] fin.valid_region(x) && !t0.children_of(region_id).contains(x) implies
                fin.parent_of(x) == t0.parent_of(x) by {
                assert(t1.valid_region(x));
                assert(fin.parent_of(x) == t1.parent_of(x));
            }
            assert forall|x: u32|
                #[trigger] fin.valid_region(x) && t0.children_of(region_id).contains(x) implies
                fin.parent_of(x) is None by {
                assert(t1.valid_region(x));
                assert(fin.parent_of(x) == t1.parent_of(x));
            }
            assert forall|x: u32|
                #[trigger] fin.valid_region(x) && t0.parent_of(region_id) != Some(x) implies
                fin.children_of(x) == t0.children_of(x) by {
                assert(t1.valid_region(x));
                assert(fin.children_of(x) == t1.children_of(x));
            }
            assert forall|x: u32|
                #[trigger] fin.valid_region(x) && t0.parent_of(region_id) == Some(x) implies
                ElectionTree::child_removed(
                t0.children_of(x),
                fin.children_of(x),
                region_id,
            ) by {
                assert(t1.valid_region(x));
                assert(fin.children_of(x) == t1.children_of(x));
            }
            if !remove_children {
                assert forall|x: u32|
                    x != region_id implies (t0.valid_region(x) <==> #[trigger] fin.valid_region(
                    x,
                )) by {
                    assert(t0.valid_region(x) <==> t1.valid_region(x));
                }
            } else {
                assert forall|x: u32|
                    #[trigger] t0.valid_region(x) && !t0.desc_or_self(x, region_id) implies
                    fin.valid_region(x) by {
                    assert(t1.valid_region(x));
                }
                assert forall|x: u32| #[trigger] fin.valid_region(x) implies !t0.desc_or_self(
                    x,
                    region_id,
                ) by {
                    assert(t1.valid_region(x));
                }
            }
        }
        Ok(())
    }

    /// Create a candidacy with a fresh id.
    pub fn create_candidacy(&mut self, name: &str) -> (id: u32)
        requires
            old(self).wf(),
            old(self).tree.candidacies@.len() < u32::MAX,
        ensures
            final(self).wf(),
            id == old(self).tree.candidacies@.len(),
            final(self).tree.valid_candidacy(id),
    {
        self.tree.add_candidacy(name)
    }
}

} // verus!
