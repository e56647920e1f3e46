//! The region hierarchy: a forest of regions rooted at a synthetic global
//! root, with one tally table per region and delta-based upward propagation.
//!
//! Every mutation of a tally is applied to the target region and then to
//! each of its ancestors in turn, ending at the global root, so that each
//! region's table always carries the rollup of its whole subtree.

pub mod auxiliar;
pub mod basic;
pub mod configs;
pub mod errors;
pub mod events;
pub mod multi_district;
pub mod region_results;
pub mod single_result;
pub mod system;
pub mod unique_district;

use vstd::prelude::*;

use crate::tree::basic::{Candidacy, Region};
use crate::tree::region_results::{
    idx_of, lemma_found, lemma_idx_of, lemma_not_found, tally_apply, RegionResults,
};
use crate::tree::single_result::SingleResult;

verus! {

/// One tally table after a pair of saturating deltas landed on candidacy
/// `c`: that entry was updated (created from zero when absent), every other
/// entry is untouched, and the recording order is kept.
pub open spec fn table_updated(
    pre: RegionResults,
    post: RegionResults,
    c: u32,
    dv: int,
    ds: int,
) -> bool {
    &&& post.wf()
    &&& post.spec_get(c) == Some(tally_apply(pre.spec_get(c), dv, ds))
    &&& (forall|c2: u32| c2 != c ==> post.spec_get(c2) == pre.spec_get(c2))
    &&& post.ids() == if pre.contains_id(c) {
        pre.ids()
    } else {
        pre.ids().push(c)
    }
}

/// Failures of tree operations.
#[derive(Debug, Clone)]
pub enum ErrorTree {
    RegionNotFound,
    CandidacyNotFound,
    NotParentable(String),
}

/// One region together with its place in the hierarchy and its tallies.
#[derive(Debug, Clone)]
pub struct RegionBox {
    pub region: Region,
    pub results: RegionResults,
    pub parent: Option<u32>,
    pub children: Vec<u32>,
}

impl RegionBox {
    pub(crate) fn new(name: &str) -> (r: RegionBox)
        ensures
            r.region.name@ == name@,
            r.results.wf(),
            r.results.entries@.len() == 0,
            forall|c: u32| r.results.spec_get(c) is None,
            r.parent is None,
            r.children@.len() == 0,
    {
        RegionBox {
            region: Region::new(name),
            results: RegionResults::new(),
            parent: None,
            children: Vec::new(),
        }
    }
}

/// The aggregation tree: regions and candidacies addressed by id, plus the
/// synthetic global root. A region's id is its index in `regions`; removed
/// entries stay as `None` so that ids are never reused.
#[derive(Debug, Clone)]
pub struct ElectionTree {
    pub root: RegionBox,
    pub regions: Vec<Option<RegionBox>>,
    pub candidacies: Vec<Option<Candidacy>>,
}

impl Default for ElectionTree {
    fn default() -> (t: ElectionTree)
        ensures
            t.wf(),
            t.regions@.len() == 0,
            t.candidacies@.len() == 0,
            forall|c: u32| t.root.results.spec_get(c) is None,
            t.root.results.entries@.len() == 0,
    {
        ElectionTree {
            root: RegionBox::new("root"),
            regions: Vec::new(),
            candidacies: Vec::new(),
        }
    }
}

impl ElectionTree {
    // ----- the spec view -----

    pub open spec fn valid_region(self, r: u32) -> bool {
        r < self.regions@.len() && self.regions@[r as int] is Some
    }

    pub open spec fn rbox(self, r: u32) -> RegionBox {
        self.regions@[r as int]->0
    }

    pub open spec fn parent_of(self, r: u32) -> Option<u32> {
        self.rbox(r).parent
    }

    pub open spec fn children_of(self, r: u32) -> Seq<u32> {
        self.rbox(r).children@
    }

    pub open spec fn results_of(self, r: u32) -> RegionResults {
        self.rbox(r).results
    }

    /// The entry recorded for candidacy `c` in region `r`, if any.
    pub open spec fn entry_of(self, r: u32, c: u32) -> Option<SingleResult> {
        self.results_of(r).spec_get(c)
    }

    /// The vote tally of candidacy `c` in region `r`; zero when absent.
    pub open spec fn votes_of(self, r: u32, c: u32) -> u32 {
        self.results_of(r).votes_of(c)
    }

    /// The seat tally of candidacy `c` in region `r`; zero when absent.
    pub open spec fn seats_of(self, r: u32, c: u32) -> u32 {
        self.results_of(r).seats_of(c)
    }

    pub open spec fn root_entry(self, c: u32) -> Option<SingleResult> {
        self.root.results.spec_get(c)
    }

    pub open spec fn root_votes(self, c: u32) -> u32 {
        self.root.results.votes_of(c)
    }

    pub open spec fn root_seats(self, c: u32) -> u32 {
        self.root.results.seats_of(c)
    }

    pub open spec fn valid_candidacy(self, c: u32) -> bool {
        c < self.candidacies@.len() && self.candidacies@[c as int] is Some
    }

    pub open spec fn spec_is_leaf(self, r: u32) -> bool {
        self.children_of(r).len() == 0
    }

    // ----- ancestor chains -----

    /// `s` lists the ancestors of `r`, nearest first, ending at a region
    /// with no parent.
    pub open spec fn chain_ok(self, r: u32, s: Seq<u32>) -> bool {
        &&& self.valid_region(r)
        &&& (forall|i: int| 0 <= i < s.len() ==> self.valid_region(#[trigger] s[i]))
        &&& if s.len() == 0 {
            self.parent_of(r) is None
        } else {
            &&& self.parent_of(r) == Some(s[0])
            &&& (forall|i: int|
                0 <= i < s.len() - 1 ==> self.parent_of(#[trigger] s[i]) == Some(s[i + 1]))
            &&& self.parent_of(s[s.len() - 1]) is None
        }
    }

    pub open spec fn has_chain(self, r: u32) -> bool {
        exists|s: Seq<u32>| self.chain_ok(r, s)
    }

    /// The ancestors of `r`, nearest first. Meaningful whenever a chain
    /// exists; it is then unique.
    pub open spec fn the_chain(self, r: u32) -> Seq<u32> {
        choose|s: Seq<u32>| self.chain_ok(r, s)
    }

    /// Whether `x` is `start` itself or one of its ancestors: the set of
    /// regions that a tally delta at `start` reaches.
    pub open spec fn on_chain(self, start: u32, x: u32) -> bool {
        x == start || self.the_chain(start).contains(x)
    }

    // ----- well-formedness -----

    /// The part of well-formedness that upward propagation needs: parents
    /// exist, every region has a finite ancestor chain, and each tally
    /// table is well formed.
    pub open spec fn wf_core(self) -> bool {
        &&& self.regions@.len() <= u32::MAX
        &&& self.candidacies@.len() <= u32::MAX
        &&& (forall|r: u32|
            #[trigger] self.valid_region(r) ==> {
                &&& (self.parent_of(r) matches Some(p) ==> self.valid_region(p))
                &&& self.results_of(r).wf()
                &&& self.has_chain(r)
            })
        &&& self.root.results.wf()
    }

    /// Parent links and child lists agree, and child lists have no
    /// duplicates.
    pub open spec fn children_wf(self) -> bool {
        &&& (forall|r: u32|
            #[trigger] self.valid_region(r) ==> {
                &&& (forall|i: int|
                    0 <= i < self.children_of(r).len() ==> {
                        &&& self.valid_region(#[trigger] self.children_of(r)[i])
                        &&& self.parent_of(self.children_of(r)[i]) == Some(r)
                    })
                &&& (forall|i: int, j: int|
                    0 <= i < j < self.children_of(r).len()
                        ==> self.children_of(r)[i] != self.children_of(r)[j])
            })
        &&& (forall|x: u32, p: u32|
            self.valid_region(x) && #[trigger] self.parent_of(x) == Some(p)
                && self.valid_region(p) ==> #[trigger] self.children_of(p).contains(x))
    }

    pub open spec fn wf(self) -> bool {
        self.wf_core() && self.children_wf()
    }

    // ----- chain lemmas -----

    /// The tail of a chain is the chain of its first element.
    pub proof fn lemma_chain_tail(self, r: u32, s: Seq<u32>)
        requires
            self.chain_ok(r, s),
            s.len() > 0,
        ensures
            self.chain_ok(s[0], s.subrange(1, s.len() as int)),
    {
        let t = s.subrange(1, s.len() as int);
        assert forall|i: int| 0 <= i < t.len() implies self.valid_region(#[trigger] t[i]) by {
            assert(t[i] == s[i + 1]);
        }
        if t.len() > 0 {
            assert(self.parent_of(s[0]) == Some(s[1]));
            assert forall|i: int| 0 <= i < t.len() - 1 implies self.parent_of(#[trigger] t[i])
                == Some(t[i + 1]) by {
                assert(t[i] == s[i + 1]);
                assert(t[i + 1] == s[i + 2]);
            }
            assert(t[t.len() - 1] == s[s.len() - 1]);
        }
    }

    /// One region has at most one ancestor chain.
    pub proof fn lemma_chain_unique(self, r: u32, s1: Seq<u32>, s2: Seq<u32>)
        requires
            self.chain_ok(r, s1),
            self.chain_ok(r, s2),
        ensures
            s1 == s2,
        decreases s1.len(),
    {
        if s1.len() == 0 {
            if s2.len() > 0 {
                assert(self.parent_of(r) == Some(s2[0]));
            }
            assert(s1 =~= s2);
        } else {
            assert(s2.len() > 0);
            assert(s1[0] == s2[0]);
            let t1 = s1.subrange(1, s1.len() as int);
            let t2 = s2.subrange(1, s2.len() as int);
            self.lemma_chain_tail(r, s1);
            self.lemma_chain_tail(r, s2);
            self.lemma_chain_unique(s1[0], t1, t2);
            assert(s1.len() == s2.len());
            assert forall|i: int| 0 <= i < s1.len() implies s1[i] == s2[i] by {
                if i > 0 {
                    assert(t1[i - 1] == s1[i]);
                    assert(t2[i - 1] == s2[i]);
                }
            }
            assert(s1 =~= s2);
        }
    }

    /// Every suffix of a chain is the chain of the element before it.
    pub proof fn lemma_chain_suffix(self, r: u32, s: Seq<u32>, i: int)
        requires
            self.chain_ok(r, s),
            0 <= i < s.len(),
        ensures
            self.chain_ok(s[i], s.subrange(i + 1, s.len() as int)),
        decreases i,
    {
        if i == 0 {
            self.lemma_chain_tail(r, s);
        } else {
            let t = s.subrange(1, s.len() as int);
            self.lemma_chain_tail(r, s);
            self.lemma_chain_suffix(s[0], t, i - 1);
            assert(t[i - 1] == s[i]);
            assert(t.subrange(i, t.len() as int) =~= s.subrange(i + 1, s.len() as int));
        }
    }

    /// A region never appears in its own ancestor chain.
    pub proof fn lemma_chain_no_self(self, r: u32, s: Seq<u32>)
        requires
            self.chain_ok(r, s),
        ensures
            forall|i: int| 0 <= i < s.len() ==> s[i] != r,
    {
        assert forall|i: int| 0 <= i < s.len() implies s[i] != r by {
            if s[i] == r {
                self.lemma_chain_suffix(r, s, i);
                self.lemma_chain_unique(r, s, s.subrange(i + 1, s.len() as int));
            }
        }
    }

    /// The elements of a chain are pairwise distinct.
    pub proof fn lemma_chain_distinct(self, r: u32, s: Seq<u32>)
        requires
            self.chain_ok(r, s),
        ensures
            forall|i: int, j: int| 0 <= i < j < s.len() ==> s[i] != s[j],
    {
        assert forall|i: int, j: int| 0 <= i < j < s.len() implies s[i] != s[j] by {
            if s[i] == s[j] {
                self.lemma_chain_suffix(r, s, i);
                let t = s.subrange(i + 1, s.len() as int);
                self.lemma_chain_no_self(s[i], t);
                assert(t[j - i - 1] == s[j]);
            }
        }
    }

    /// In a well-formed tree, `the_chain` is the unique ancestor chain.
    pub proof fn lemma_the_chain(self, r: u32)
        requires
            self.wf_core(),
            self.valid_region(r),
        ensures
            self.chain_ok(r, self.the_chain(r)),
    {
        assert(self.has_chain(r));
        let s = choose|s: Seq<u32>| self.chain_ok(r, s);
        assert(self.chain_ok(r, s));
    }

    /// Stepping to the parent drops the first element of the chain.
    pub proof fn lemma_chain_step(self, r: u32, p: u32)
        requires
            self.wf_core(),
            self.valid_region(r),
            self.parent_of(r) == Some(p),
        ensures
            self.valid_region(p),
            self.the_chain(r) == seq![p] + self.the_chain(p),
            self.the_chain(r).len() == 1 + self.the_chain(p).len(),
            self.the_chain(r)[0] == p,
    {
        self.lemma_the_chain(r);
        let s = self.the_chain(r);
        assert(s.len() > 0);
        assert(s[0] == p);
        self.lemma_chain_tail(r, s);
        self.lemma_the_chain(p);
        self.lemma_chain_unique(p, s.subrange(1, s.len() as int), self.the_chain(p));
        assert(s =~= seq![p] + self.the_chain(p));
    }

    /// A parentless region has the empty chain.
    pub proof fn lemma_chain_top(self, r: u32)
        requires
            self.wf_core(),
            self.valid_region(r),
            self.parent_of(r) is None,
        ensures
            self.the_chain(r) == Seq::<u32>::empty(),
    {
        self.lemma_the_chain(r);
        let s = self.the_chain(r);
        assert(self.chain_ok(r, Seq::<u32>::empty()));
        self.lemma_chain_unique(r, s, Seq::<u32>::empty());
    }

    /// Chains depend only on which regions exist and on their parent
    /// links; mutating tallies, children or names leaves them unchanged.
    pub proof fn lemma_chain_frame(t1: ElectionTree, t2: ElectionTree)
        requires
            forall|r: u32| t1.valid_region(r) <==> #[trigger] t2.valid_region(r),
            forall|r: u32| #[trigger] t1.valid_region(r) ==> t1.parent_of(r) == t2.parent_of(r),
        ensures
            forall|r: u32, s: Seq<u32>| #[trigger] t1.chain_ok(r, s) <==> #[trigger] t2.chain_ok(r, s),
            forall|r: u32| #[trigger] t1.has_chain(r) <==> #[trigger] t2.has_chain(r),
            forall|r: u32|
                t1.has_chain(r) ==> #[trigger] t1.the_chain(r) == #[trigger] t2.the_chain(r),
    {
        assert forall|r: u32, s: Seq<u32>| #[trigger] t1.chain_ok(r, s) <==> #[trigger] t2.chain_ok(
            r,
            s,
        ) by {
            if t1.chain_ok(r, s) {
                assert(t2.valid_region(r));
                assert(forall|i: int| 0 <= i < s.len() ==> t2.valid_region(#[trigger] s[i]));
                assert(t2.chain_ok(r, s));
            }
            if t2.chain_ok(r, s) {
                assert(t1.valid_region(r));
                assert(forall|i: int| 0 <= i < s.len() ==> t1.valid_region(#[trigger] s[i]));
                assert(t1.chain_ok(r, s));
            }
        }
        assert forall|r: u32| #[trigger] t1.has_chain(r) <==> #[trigger] t2.has_chain(r) by {
            if t1.has_chain(r) {
                let s = choose|s: Seq<u32>| t1.chain_ok(r, s);
                assert(t2.chain_ok(r, s));
            }
            if t2.has_chain(r) {
                let s = choose|s: Seq<u32>| t2.chain_ok(r, s);
                assert(t1.chain_ok(r, s));
            }
        }
        assert forall|r: u32| t1.has_chain(r) implies #[trigger] t1.the_chain(r)
            == #[trigger] t2.the_chain(r) by {
            let s1 = t1.the_chain(r);
            assert(t1.chain_ok(r, s1));
            assert(t2.chain_ok(r, s1));
            assert(t2.has_chain(r));
            let s2 = t2.the_chain(r);
            assert(t2.chain_ok(r, s2));
            assert(t1.chain_ok(r, s2));
            t1.lemma_chain_unique(r, s1, s2);
        }
    }

    /// A tree whose region table is unchanged keeps its well-formedness.
    pub proof fn lemma_wf_same_regions(t1: ElectionTree, t2: ElectionTree)
        requires
            t1.wf(),
            t2.regions@ == t1.regions@,
            t2.candidacies@.len() <= u32::MAX,
            t2.root.results.wf(),
        ensures
            t2.wf(),
    {
        assert forall|r: u32| #[trigger] t2.valid_region(r) implies {
            &&& (t2.parent_of(r) matches Some(p) ==> t2.valid_region(p))
            &&& t2.results_of(r).wf()
            &&& t2.has_chain(r)
        } by {
            assert(t1.valid_region(r));
            t1.lemma_the_chain(r);
            let s = t1.the_chain(r);
            assert(forall|i: int| 0 <= i < s.len() ==> t2.valid_region(#[trigger] s[i]));
            assert(t2.chain_ok(r, s));
        }
        assert forall|r: u32| #[trigger] t2.valid_region(r) implies {
            &&& (forall|i: int|
                0 <= i < t2.children_of(r).len() ==> {
                    &&& t2.valid_region(#[trigger] t2.children_of(r)[i])
                    &&& t2.parent_of(t2.children_of(r)[i]) == Some(r)
                })
            &&& (forall|i: int, j: int|
                0 <= i < j < t2.children_of(r).len()
                    ==> t2.children_of(r)[i] != t2.children_of(r)[j])
        } by {
            assert(t1.valid_region(r));
            assert(t2.children_of(r) == t1.children_of(r));
            assert forall|i: int| 0 <= i < t2.children_of(r).len() implies {
                &&& t2.valid_region(#[trigger] t2.children_of(r)[i])
                &&& t2.parent_of(t2.children_of(r)[i]) == Some(r)
            } by {
                assert(t1.valid_region(t1.children_of(r)[i]));
                assert(t1.parent_of(t1.children_of(r)[i]) == Some(r));
            }
        }
        assert forall|x: u32, p: u32|
            t2.valid_region(x) && #[trigger] t2.parent_of(x) == Some(p) && t2.valid_region(
            p,
        ) implies #[trigger] t2.children_of(p).contains(x) by {
            assert(t1.valid_region(x));
            assert(t1.valid_region(p));
            assert(t1.parent_of(x) == Some(p));
            assert(t1.children_of(p).contains(x));
            assert(t2.children_of(p) == t1.children_of(p));
        }
        assert(t2.children_wf());
    }

    // ----- the effect of one propagated delta -----

    /// Everything but tallies is unchanged: the same regions exist, with
    /// the same parents, children and names, and the same candidacies.
    pub open spec fn same_structure(pre: ElectionTree, post: ElectionTree) -> bool {
        &&& post.regions@.len() == pre.regions@.len()
        &&& post.candidacies@ == pre.candidacies@
        &&& (forall|x: u32| pre.valid_region(x) <==> #[trigger] post.valid_region(x))
        &&& (forall|x: u32|
            #[trigger] pre.valid_region(x) ==> {
                &&& post.parent_of(x) == pre.parent_of(x)
                &&& post.children_of(x) == pre.children_of(x)
                &&& post.rbox(x).region == pre.rbox(x).region
            })
        &&& post.root.region == pre.root.region
        &&& post.root.parent == pre.root.parent
        &&& post.root.children == pre.root.children
    }

    /// The tally deltas were applied to one region, each of its ancestors,
    /// and the global root; every other table is untouched.
    pub open spec fn delta_applied(
        pre: ElectionTree,
        post: ElectionTree,
        start: u32,
        c: u32,
        dv: int,
        ds: int,
    ) -> bool {
        &&& Self::same_structure(pre, post)
        &&& table_updated(pre.root.results, post.root.results, c, dv, ds)
        &&& (forall|x: u32|
            #[trigger] pre.valid_region(x) ==> if pre.on_chain(start, x) {
                table_updated(pre.results_of(x), post.results_of(x), c, dv, ds)
            } else {
                post.rbox(x).results == pre.rbox(x).results
            })
    }

    /// Recursively apply a pair of saturating tally deltas to a region,
    /// its ancestors, and the global root.
    fn apply_delta(&mut self, region_id: u32, candidacy_id: u32, dv: i64, ds: i64)
        requires
            old(self).wf_core(),
            old(self).valid_region(region_id),
            -(u32::MAX as i64) <= dv <= u32::MAX as i64,
            -(u32::MAX as i64) <= ds <= u32::MAX as i64,
        ensures
            final(self).wf_core(),
            old(self).children_wf() ==> final(self).children_wf(),
            Self::delta_applied(
                *old(self),
                *final(self),
                region_id,
                candidacy_id,
                dv as int,
                ds as int,
            ),
        decreases self.the_chain(region_id).len(),
    {
        let ghost orig = *self;
        proof {
            orig.lemma_the_chain(region_id);
        }
        let parent: Option<u32> = self.parent_raw(region_id);
        let i = region_id as usize;
        match &mut self.regions[i] {
            Some(b) => b.results.apply(candidacy_id, dv, ds),
            None => {},
        }
        let ghost mid = *self;
        proof {
            assert(mid.regions@ == orig.regions@.update(
                i as int,
                mid.regions@[i as int],
            ));
            assert(Self::same_structure(orig, mid));
            assert(table_updated(
                orig.results_of(region_id),
                mid.results_of(region_id),
                candidacy_id,
                dv as int,
                ds as int,
            ));
            assert(forall|x: u32|
                #[trigger] orig.valid_region(x) && x != region_id ==> mid.rbox(x).results
                    == orig.rbox(x).results);
            Self::lemma_chain_frame(orig, mid);
            assert forall|r: u32| #[trigger] mid.valid_region(r) implies {
                &&& (mid.parent_of(r) matches Some(p) ==> mid.valid_region(p))
                &&& mid.results_of(r).wf()
                &&& mid.has_chain(r)
            } by {
                assert(orig.valid_region(r));
            }
            assert(mid.wf_core());
        }
        match parent {
            Some(p) => {
                proof {
                    orig.lemma_chain_step(region_id, p);
                    assert(mid.the_chain(p) == orig.the_chain(p));
                    assert(mid.the_chain(p).len() < orig.the_chain(region_id).len());
                }
                self.apply_delta(p, candidacy_id, dv, ds);
                proof {
                    let fin = *self;
                    // the update set of the recursive call is the chain tail
                    orig.lemma_chain_no_self(region_id, orig.the_chain(region_id));
                    Self::lemma_chain_frame(orig, mid);
                    mid.lemma_the_chain(p);
                    assert(mid.the_chain(p) == orig.the_chain(p));
                    assert forall|x: u32| #[trigger] orig.valid_region(x) implies if orig.on_chain(
                        region_id,
                        x,
                    ) {
                        table_updated(
                            orig.results_of(x),
                            fin.results_of(x),
                            candidacy_id,
                            dv as int,
                            ds as int,
                        )
                    } else {
                        fin.rbox(x).results == orig.rbox(x).results
                    } by {
                        assert(mid.valid_region(x));
                        assert(orig.the_chain(region_id) == seq![p] + orig.the_chain(p));
                        if x == region_id {
                            // not touched again by the recursive call
                            assert(!orig.the_chain(region_id).contains(region_id));
                            assert(x != p);
                            if orig.the_chain(p).contains(x) {
                                let k = choose|k: int|
                                    0 <= k < orig.the_chain(p).len() && orig.the_chain(p)[k] == x;
                                assert(orig.the_chain(region_id)[k + 1] == x);
                            }
                            assert(!mid.on_chain(p, x));
                            assert(fin.rbox(x).results == mid.rbox(x).results);
                            assert(orig.on_chain(region_id, x));
                        } else if orig.on_chain(region_id, x) {
                            // x is a proper ancestor: on the tail chain
                            let k = choose|k: int|
                                0 <= k < orig.the_chain(region_id).len() && orig.the_chain(
                                    region_id,
                                )[k] == x;
                            assert(mid.on_chain(p, x)) by {
                                if k == 0 {
                                    assert(x == p);
                                } else {
                                    assert(orig.the_chain(p)[k - 1] == x);
                                    assert(orig.the_chain(p).contains(x));
                                }
                            }
                            assert(table_updated(
                                mid.results_of(x),
                                fin.results_of(x),
                                candidacy_id,
                                dv as int,
                                ds as int,
                            ));
                            assert(mid.results_of(x) == orig.results_of(x));
                        } else {
                            // untouched in both steps
                            assert(!mid.on_chain(p, x)) by {
                                if x == p {
                                    assert(orig.the_chain(region_id)[0] == p);
                                    assert(orig.the_chain(region_id).contains(x));
                                } else if orig.the_chain(p).contains(x) {
                                    let k = choose|k: int|
                                        0 <= k < orig.the_chain(p).len() && orig.the_chain(
                                            p,
                                        )[k] == x;
                                    assert(orig.the_chain(region_id)[k + 1] == x);
                                    assert(orig.the_chain(region_id).contains(x));
                                }
                            }
                            assert(fin.rbox(x).results == mid.rbox(x).results);
                        }
                    }
                    assert forall|x: u32| orig.valid_region(x) <==> #[trigger] fin.valid_region(
                        x,
                    ) by {
                        assert(orig.valid_region(x) <==> mid.valid_region(x));
                    }
                    assert forall|x: u32| #[trigger] orig.valid_region(x) implies {
                        &&& fin.parent_of(x) == orig.parent_of(x)
                        &&& fin.children_of(x) == orig.children_of(x)
                        &&& fin.rbox(x).region == orig.rbox(x).region
                    } by {
                        assert(mid.valid_region(x));
                    }
                    assert(Self::same_structure(orig, fin));
                    assert(mid.root.results == orig.root.results);
                    assert(table_updated(
                        orig.root.results,
                        fin.root.results,
                        candidacy_id,
                        dv as int,
                        ds as int,
                    ));
                }
            },
            None => {
                self.root.results.apply(candidacy_id, dv, ds);
                proof {
                    let fin = *self;
                    orig.lemma_chain_top(region_id);
                    assert forall|x: u32| #[trigger] orig.valid_region(x) implies if orig.on_chain(
                        region_id,
                        x,
                    ) {
                        table_updated(
                            orig.results_of(x),
                            fin.results_of(x),
                            candidacy_id,
                            dv as int,
                            ds as int,
                        )
                    } else {
                        fin.rbox(x).results == orig.rbox(x).results
                    } by {
                        assert(!orig.the_chain(region_id).contains(x));
                        if x == region_id {
                            assert(fin.results_of(x) == mid.results_of(x));
                        } else {
                            assert(fin.rbox(x).results == mid.rbox(x).results);
                            assert(mid.rbox(x).results == orig.rbox(x).results);
                        }
                    }
                    Self::lemma_chain_frame(mid, fin);
                    assert forall|r: u32| #[trigger] fin.valid_region(r) implies {
                        &&& (fin.parent_of(r) matches Some(q) ==> fin.valid_region(q))
                        &&& fin.results_of(r).wf()
                        &&& fin.has_chain(r)
                    } by {
                        assert(mid.valid_region(r));
                    }
                    assert(fin.wf_core());
                }
            },
        }
        proof {
            // children lists are untouched, so duality survives
            let fin = *self;
            if orig.children_wf() {
                assert forall|r: u32| #[trigger] fin.valid_region(r) implies {
                    &&& (forall|i: int|
                        0 <= i < fin.children_of(r).len() ==> {
                            &&& fin.valid_region(#[trigger] fin.children_of(r)[i])
                            &&& fin.parent_of(fin.children_of(r)[i]) == Some(r)
                        })
                    &&& (forall|i: int, j: int|
                        0 <= i < j < fin.children_of(r).len()
                            ==> fin.children_of(r)[i] != fin.children_of(r)[j])
                } by {
                    assert(orig.valid_region(r));
                    assert(fin.children_of(r) == orig.children_of(r));
                    assert forall|i: int| 0 <= i < fin.children_of(r).len() implies {
                        &&& fin.valid_region(#[trigger] fin.children_of(r)[i])
                        &&& fin.parent_of(fin.children_of(r)[i]) == Some(r)
                    } by {
                        assert(orig.valid_region(orig.children_of(r)[i]));
                        assert(orig.parent_of(orig.children_of(r)[i]) == Some(r));
                    }
                }
                assert forall|x: u32, p2: u32|
                    fin.valid_region(x) && #[trigger] fin.parent_of(x) == Some(p2)
                        && fin.valid_region(p2) implies #[trigger] fin.children_of(p2).contains(
                    x,
                ) by {
                    assert(orig.valid_region(x));
                    assert(orig.valid_region(p2));
                    assert(orig.parent_of(x) == Some(p2));
                    assert(orig.children_of(p2).contains(x));
                    assert(fin.children_of(p2) == orig.children_of(p2));
                }
                assert(fin.children_wf());
            }
        }
    }

    // ----- applying a whole snapshot of tallies -----

    /// One table after a signed copy of a snapshot was folded in: each
    /// candidacy of the snapshot got its deltas, every other is untouched.
    pub open spec fn table_snap_applied(
        pre: RegionResults,
        post: RegionResults,
        snap: Seq<(u32, SingleResult)>,
        sign: int,
    ) -> bool {
        &&& post.wf()
        &&& (forall|c: u32|
            #[trigger] post.spec_get(c) == if idx_of(snap, c) >= 0 {
                Some(tally_apply(
                    pre.spec_get(c),
                    sign * snap[idx_of(snap, c)].1.votes,
                    sign * snap[idx_of(snap, c)].1.seats,
                ))
            } else {
                pre.spec_get(c)
            })
    }

    /// A signed snapshot was folded into one region, its ancestors and the
    /// global root; every other table is untouched.
    pub open spec fn snapshot_applied(
        pre: ElectionTree,
        post: ElectionTree,
        target: u32,
        snap: Seq<(u32, SingleResult)>,
        sign: int,
    ) -> bool {
        &&& Self::same_structure(pre, post)
        &&& Self::table_snap_applied(pre.root.results, post.root.results, snap, sign)
        &&& (forall|x: u32|
            #[trigger] pre.valid_region(x) ==> if pre.on_chain(target, x) {
                Self::table_snap_applied(pre.results_of(x), post.results_of(x), snap, sign)
            } else {
                post.rbox(x).results == pre.rbox(x).results
            })
    }

    /// Fold a snapshot of tallies, negated when `neg` holds, into a region,
    /// its ancestors and the global root.
    #[verifier::rlimit(100)]
    fn apply_snapshot(&mut self, target: u32, snap: &Vec<(u32, SingleResult)>, neg: bool)
        requires
            old(self).wf_core(),
            old(self).valid_region(target),
            forall|i: int, j: int| 0 <= i < j < snap@.len() ==> snap@[i].0 != snap@[j].0,
        ensures
            final(self).wf_core(),
            old(self).children_wf() ==> final(self).children_wf(),
            Self::snapshot_applied(
                *old(self),
                *final(self),
                target,
                snap@,
                if neg {
                    -1int
                } else {
                    1int
                },
            ),
    {
        let ghost pre = *old(self);
        let ghost sign: int = if neg { -1int } else { 1int };
        let n = snap.len();
        let mut k: usize = 0;
        proof {
            assert forall|c: u32| true implies #[trigger] idx_of(snap@.take(0), c) < 0 by {
                lemma_idx_of(snap@.take(0), c);
            }
            assert(Self::snapshot_applied(pre, *self, target, snap@.take(0), sign));
        }
        while k < n
            invariant
                k <= n,
                n == snap@.len(),
                forall|i: int, j: int| 0 <= i < j < snap@.len() ==> snap@[i].0 != snap@[j].0,
                pre.wf_core(),
                pre.valid_region(target),
                sign == if neg { -1int } else { 1int },
                self.wf_core(),
                pre.children_wf() ==> self.children_wf(),
                Self::snapshot_applied(pre, *self, target, snap@.take(k as int), sign),
            decreases n - k,
        {
            let ghost mid = *self;
            let ghost prefix = snap@.take(k as int);
            let c = snap[k].0;
            let v = snap[k].1.votes;
            let s = snap[k].1.seats;
            let dv: i64 = if neg {
                -(v as i64)
            } else {
                v as i64
            };
            let ds: i64 = if neg {
                -(s as i64)
            } else {
                s as i64
            };
            proof {
                assert(mid.valid_region(target));
            }
            self.apply_delta(target, c, dv, ds);
            proof {
                let fin = *self;
                let ext = snap@.take(k as int + 1);
                assert(ext =~= prefix.push(snap@[k as int]));
                // chains agree across the states, so the update sets agree
                Self::lemma_chain_frame(pre, mid);
                pre.lemma_the_chain(target);
                assert(mid.the_chain(target) == pre.the_chain(target));
                assert forall|x: u32| true implies (mid.on_chain(target, x) <==> pre.on_chain(
                    target,
                    x,
                )) by {}
                // c is new to the prefix
                assert(idx_of(prefix, c) < 0) by {
                    lemma_idx_of(prefix, c);
                    if idx_of(prefix, c) >= 0 {
                        assert(prefix[idx_of(prefix, c)] == snap@[idx_of(prefix, c)]);
                    }
                }
                assert forall|c2: u32| true implies #[trigger] idx_of(ext, c2) == (if c2 == c {
                    k as int
                } else {
                    idx_of(prefix, c2)
                }) by {
                    if c2 == c {
                        lemma_found(ext, c2, k as int);
                    } else {
                        lemma_idx_of(prefix, c2);
                        if idx_of(prefix, c2) >= 0 {
                            lemma_found(ext, c2, idx_of(prefix, c2));
                        } else {
                            lemma_not_found(ext, c2);
                        }
                    }
                }
                assert forall|x: u32| #[trigger] pre.valid_region(x) implies if pre.on_chain(
                    target,
                    x,
                ) {
                    Self::table_snap_applied(pre.results_of(x), fin.results_of(x), ext, sign)
                } else {
                    fin.rbox(x).results == pre.rbox(x).results
                } by {
                    assert(mid.valid_region(x));
                    assert(dv as int == sign * snap@[k as int].1.votes);
                    assert(ds as int == sign * snap@[k as int].1.seats);
                    if pre.on_chain(target, x) {
                        assert(Self::table_snap_applied(
                            pre.results_of(x),
                            mid.results_of(x),
                            prefix,
                            sign,
                        ));
                        assert(table_updated(
                            mid.results_of(x),
                            fin.results_of(x),
                            c,
                            dv as int,
                            ds as int,
                        ));
                        assert forall|c2: u32| true implies #[trigger] fin.results_of(x).spec_get(
                            c2,
                        ) == (if idx_of(ext, c2) >= 0 {
                            Some(tally_apply(
                                pre.results_of(x).spec_get(c2),
                                sign * ext[idx_of(ext, c2)].1.votes,
                                sign * ext[idx_of(ext, c2)].1.seats,
                            ))
                        } else {
                            pre.results_of(x).spec_get(c2)
                        }) by {
                            if c2 == c {
                                assert(mid.results_of(x).spec_get(c) == pre.results_of(
                                    x,
                                ).spec_get(c));
                                assert(ext[k as int] == snap@[k as int]);
                            } else {
                                assert(fin.results_of(x).spec_get(c2) == mid.results_of(
                                    x,
                                ).spec_get(c2));
                                lemma_idx_of(prefix, c2);
                                if idx_of(prefix, c2) >= 0 {
                                    assert(prefix[idx_of(prefix, c2)] == ext[idx_of(prefix, c2)]);
                                }
                            }
                        }
                    } else {
                        assert(mid.rbox(x).results == pre.rbox(x).results);
                        assert(!mid.on_chain(target, x));
                        assert(fin.rbox(x).results == mid.rbox(x).results);
                    }
                }
                // and the root table
                assert(Self::table_snap_applied(pre.root.results, mid.root.results, prefix, sign));
                assert(table_updated(mid.root.results, fin.root.results, c, dv as int, ds as int));
                assert forall|c2: u32| true implies #[trigger] fin.root.results.spec_get(c2) == (if
                idx_of(ext, c2) >= 0 {
                    Some(tally_apply(
                        pre.root.results.spec_get(c2),
                        sign * ext[idx_of(ext, c2)].1.votes,
                        sign * ext[idx_of(ext, c2)].1.seats,
                    ))
                } else {
                    pre.root.results.spec_get(c2)
                }) by {
                    assert(dv as int == sign * snap@[k as int].1.votes);
                    assert(ds as int == sign * snap@[k as int].1.seats);
                    if c2 == c {
                        assert(mid.root.results.spec_get(c) == pre.root.results.spec_get(c));
                        assert(ext[k as int] == snap@[k as int]);
                    } else {
                        assert(fin.root.results.spec_get(c2) == mid.root.results.spec_get(c2));
                        lemma_idx_of(prefix, c2);
                        if idx_of(prefix, c2) >= 0 {
                            assert(prefix[idx_of(prefix, c2)] == ext[idx_of(prefix, c2)]);
                        }
                    }
                }
                assert forall|x: u32| pre.valid_region(x) <==> #[trigger] fin.valid_region(x) by {
                    assert(pre.valid_region(x) <==> mid.valid_region(x));
                }
                assert forall|x: u32| #[trigger] pre.valid_region(x) implies {
                    &&& fin.parent_of(x) == pre.parent_of(x)
                    &&& fin.children_of(x) == pre.children_of(x)
                    &&& fin.rbox(x).region == pre.rbox(x).region
                } by {
                    assert(mid.valid_region(x));
                }
                assert(Self::same_structure(pre, fin));
                assert(Self::snapshot_applied(pre, fin, target, ext, sign));
            }
            k = k + 1;
        }
        proof {
            assert(snap@.take(n as int) =~= snap@);
        }
    }

    /// Fold a snapshot, negated when `neg` holds, into the global root
    /// alone.
    #[verifier::rlimit(100)]
    fn apply_snapshot_root(&mut self, snap: &Vec<(u32, SingleResult)>, neg: bool)
        requires
            old(self).wf_core(),
            forall|i: int, j: int| 0 <= i < j < snap@.len() ==> snap@[i].0 != snap@[j].0,
        ensures
            final(self).wf_core(),
            old(self).children_wf() ==> final(self).children_wf(),
            final(self).regions@ == old(self).regions@,
            final(self).candidacies@ == old(self).candidacies@,
            final(self).root.region == old(self).root.region,
            final(self).root.parent == old(self).root.parent,
            final(self).root.children == old(self).root.children,
            final(self).root.parent == old(self).root.parent,
            final(self).root.children == old(self).root.children,
            Self::table_snap_applied(
                old(self).root.results,
                final(self).root.results,
                snap@,
                if neg {
                    -1int
                } else {
                    1int
                },
            ),
    {
        let ghost pre = *old(self);
        let ghost sign: int = if neg { -1int } else { 1int };
        let n = snap.len();
        let mut k: usize = 0;
        proof {
            assert forall|c: u32| true implies #[trigger] idx_of(snap@.take(0), c) < 0 by {
                lemma_idx_of(snap@.take(0), c);
            }
        }
        while k < n
            invariant
                k <= n,
                n == snap@.len(),
                forall|i: int, j: int| 0 <= i < j < snap@.len() ==> snap@[i].0 != snap@[j].0,
                pre.wf_core(),
                sign == if neg { -1int } else { 1int },
                self.regions@ == pre.regions@,
                self.candidacies@ == pre.candidacies@,
                self.root.region == pre.root.region,
                self.root.parent == pre.root.parent,
                self.root.children == pre.root.children,
                self.root.results.wf(),
                Self::table_snap_applied(
                    pre.root.results,
                    self.root.results,
                    snap@.take(k as int),
                    sign,
                ),
            decreases n - k,
        {
            let ghost mid = *self;
            let ghost prefix = snap@.take(k as int);
            let c = snap[k].0;
            let v = snap[k].1.votes;
            let s = snap[k].1.seats;
            let dv: i64 = if neg {
                -(v as i64)
            } else {
                v as i64
            };
            let ds: i64 = if neg {
                -(s as i64)
            } else {
                s as i64
            };
            self.root.results.apply(c, dv, ds);
            proof {
                let fin = *self;
                let ext = snap@.take(k as int + 1);
                assert(ext =~= prefix.push(snap@[k as int]));
                assert(idx_of(prefix, c) < 0) by {
                    lemma_idx_of(prefix, c);
                    if idx_of(prefix, c) >= 0 {
                        assert(prefix[idx_of(prefix, c)] == snap@[idx_of(prefix, c)]);
                    }
                }
                assert forall|c2: u32| true implies #[trigger] idx_of(ext, c2) == (if c2 == c {
                    k as int
                } else {
                    idx_of(prefix, c2)
                }) by {
                    if c2 == c {
                        lemma_found(ext, c2, k as int);
                    } else {
                        lemma_idx_of(prefix, c2);
                        if idx_of(prefix, c2) >= 0 {
                            lemma_found(ext, c2, idx_of(prefix, c2));
                        } else {
                            lemma_not_found(ext, c2);
                        }
                    }
                }
                assert forall|c2: u32| true implies #[trigger] fin.root.results.spec_get(c2) == (if
                idx_of(ext, c2) >= 0 {
                    Some(tally_apply(
                        pre.root.results.spec_get(c2),
                        sign * ext[idx_of(ext, c2)].1.votes,
                        sign * ext[idx_of(ext, c2)].1.seats,
                    ))
                } else {
                    pre.root.results.spec_get(c2)
                }) by {
                    assert(dv as int == sign * snap@[k as int].1.votes);
                    assert(ds as int == sign * snap@[k as int].1.seats);
                    if c2 == c {
                        assert(mid.root.results.spec_get(c) == pre.root.results.spec_get(c));
                        assert(ext[k as int] == snap@[k as int]);
                    } else {
                        assert(fin.root.results.spec_get(c2) == mid.root.results.spec_get(c2));
                        lemma_idx_of(prefix, c2);
                        if idx_of(prefix, c2) >= 0 {
                            assert(prefix[idx_of(prefix, c2)] == ext[idx_of(prefix, c2)]);
                        }
                    }
                }
            }
            k = k + 1;
        }
        proof {
            assert(snap@.take(n as int) =~= snap@);
            Self::lemma_wf_same_regions_core(pre, *self);
            if pre.children_wf() {
                Self::lemma_children_wf_same_regions(pre, *self);
            }
        }
    }

    /// Parent/child duality depends only on which regions exist and on
    /// their parent links and child lists.
    pub proof fn lemma_children_wf_frame(t1: ElectionTree, t2: ElectionTree)
        requires
            t1.children_wf(),
            forall|x: u32| t1.valid_region(x) <==> #[trigger] t2.valid_region(x),
            forall|x: u32|
                #[trigger] t1.valid_region(x) ==> t2.parent_of(x) == t1.parent_of(x)
                    && t2.children_of(x) == t1.children_of(x),
        ensures
            t2.children_wf(),
    {
        assert forall|r: u32| #[trigger] t2.valid_region(r) implies {
            &&& (forall|i: int|
                0 <= i < t2.children_of(r).len() ==> {
                    &&& t2.valid_region(#[trigger] t2.children_of(r)[i])
                    &&& t2.parent_of(t2.children_of(r)[i]) == Some(r)
                })
            &&& (forall|i: int, j: int|
                0 <= i < j < t2.children_of(r).len()
                    ==> t2.children_of(r)[i] != t2.children_of(r)[j])
        } by {
            assert(t1.valid_region(r));
            assert(t2.children_of(r) == t1.children_of(r));
            assert forall|i: int| 0 <= i < t2.children_of(r).len() implies {
                &&& t2.valid_region(#[trigger] t2.children_of(r)[i])
                &&& t2.parent_of(t2.children_of(r)[i]) == Some(r)
            } by {
                assert(t1.valid_region(t1.children_of(r)[i]));
                assert(t1.parent_of(t1.children_of(r)[i]) == Some(r));
            }
        }
        assert forall|x: u32, p: u32|
            t2.valid_region(x) && #[trigger] t2.parent_of(x) == Some(p) && t2.valid_region(
            p,
        ) implies #[trigger] t2.children_of(p).contains(x) by {
            assert(t1.valid_region(x));
            assert(t1.valid_region(p));
            assert(t1.parent_of(x) == Some(p));
            assert(t1.children_of(p).contains(x));
            assert(t2.children_of(p) == t1.children_of(p));
        }
    }

    /// A tree whose region table is unchanged keeps the parent/child
    /// duality.
    pub proof fn lemma_children_wf_same_regions(t1: ElectionTree, t2: ElectionTree)
        requires
            t1.children_wf(),
            t2.regions@ == t1.regions@,
        ensures
            t2.children_wf(),
    {
        assert forall|r: u32| #[trigger] t2.valid_region(r) implies {
            &&& (forall|i: int|
                0 <= i < t2.children_of(r).len() ==> {
                    &&& t2.valid_region(#[trigger] t2.children_of(r)[i])
                    &&& t2.parent_of(t2.children_of(r)[i]) == Some(r)
                })
            &&& (forall|i: int, j: int|
                0 <= i < j < t2.children_of(r).len()
                    ==> t2.children_of(r)[i] != t2.children_of(r)[j])
        } by {
            assert(t1.valid_region(r));
            assert(t2.children_of(r) == t1.children_of(r));
            assert forall|i: int| 0 <= i < t2.children_of(r).len() implies {
                &&& t2.valid_region(#[trigger] t2.children_of(r)[i])
                &&& t2.parent_of(t2.children_of(r)[i]) == Some(r)
            } by {
                assert(t1.valid_region(t1.children_of(r)[i]));
                assert(t1.parent_of(t1.children_of(r)[i]) == Some(r));
            }
        }
        assert forall|x: u32, p: u32|
            t2.valid_region(x) && #[trigger] t2.parent_of(x) == Some(p) && t2.valid_region(
            p,
        ) implies #[trigger] t2.children_of(p).contains(x) by {
            assert(t1.valid_region(x));
            assert(t1.valid_region(p));
            assert(t1.parent_of(x) == Some(p));
            assert(t1.children_of(p).contains(x));
            assert(t2.children_of(p) == t1.children_of(p));
        }
    }

    /// A tree whose region table is unchanged keeps its core
    /// well-formedness.
    pub proof fn lemma_wf_same_regions_core(t1: ElectionTree, t2: ElectionTree)
        requires
            t1.wf_core(),
            t2.regions@ == t1.regions@,
            t2.candidacies@.len() <= u32::MAX,
            t2.root.results.wf(),
        ensures
            t2.wf_core(),
    {
        assert forall|r: u32| #[trigger] t2.valid_region(r) implies {
            &&& (t2.parent_of(r) matches Some(p) ==> t2.valid_region(p))
            &&& t2.results_of(r).wf()
            &&& t2.has_chain(r)
        } by {
            assert(t1.valid_region(r));
            t1.lemma_the_chain(r);
            let s = t1.the_chain(r);
            assert(forall|i: int| 0 <= i < s.len() ==> t2.valid_region(#[trigger] s[i]));
            assert(t2.chain_ok(r, s));
        }
    }

    // ----- re-pointing parent links -----

    /// After clearing one region's parent link, every region still has an
    /// ancestor chain; chains not passing through `r` are unchanged.
    pub proof fn lemma_unlink(pre: ElectionTree, post: ElectionTree, r: u32)
        requires
            pre.wf_core(),
            pre.valid_region(r),
            forall|x: u32| pre.valid_region(x) <==> #[trigger] post.valid_region(x),
            forall|x: u32|
                #[trigger] pre.valid_region(x) && x != r ==> post.parent_of(x) == pre.parent_of(
                    x,
                ),
            post.parent_of(r) is None,
        ensures
            forall|x: u32| #[trigger] post.valid_region(x) ==> post.has_chain(x),
            post.the_chain(r) == Seq::<u32>::empty(),
            forall|x: u32|
                #[trigger] pre.valid_region(x) && x != r && !pre.the_chain(x).contains(r)
                    ==> post.the_chain(x) == pre.the_chain(x),
    {
        assert(post.chain_ok(r, Seq::<u32>::empty()));
        assert forall|x: u32| #[trigger] post.valid_region(x) implies post.has_chain(x) by {
            if x == r {
            } else {
                assert(pre.valid_region(x));
                pre.lemma_the_chain(x);
                let s = pre.the_chain(x);
                if s.contains(r) {
                    let i = choose|i: int| 0 <= i < s.len() && s[i] == r;
                    pre.lemma_chain_distinct(x, s);
                    let ns = s.subrange(0, i + 1);
                    assert forall|k: int| 0 <= k < ns.len() - 1 implies post.parent_of(
                        #[trigger] ns[k],
                    ) == Some(ns[k + 1]) by {
                        assert(s[k] != r);
                        assert(pre.parent_of(s[k]) == Some(s[k + 1]));
                    }
                    assert(ns[ns.len() - 1] == r);
                    assert(post.chain_ok(x, ns));
                } else {
                    assert(forall|k: int| 0 <= k < s.len() ==> s[k] != r);
                    assert forall|k: int| 0 <= k < s.len() - 1 implies post.parent_of(
                        #[trigger] s[k],
                    ) == Some(s[k + 1]) by {}
                    assert(post.chain_ok(x, s));
                }
            }
        }
        post.lemma_chain_unique(r, post.the_chain(r), Seq::<u32>::empty());
        assert forall|x: u32|
            #[trigger] pre.valid_region(x) && x != r && !pre.the_chain(x).contains(
                r,
            ) implies post.the_chain(x) == pre.the_chain(x) by {
            pre.lemma_the_chain(x);
            let s = pre.the_chain(x);
            assert(forall|k: int| 0 <= k < s.len() ==> s[k] != r);
            assert forall|k: int| 0 <= k < s.len() - 1 implies post.parent_of(#[trigger] s[k])
                == Some(s[k + 1]) by {}
            assert(post.chain_ok(x, s));
            let s2 = post.the_chain(x);
            assert(post.chain_ok(x, s2));
            post.lemma_chain_unique(x, s, s2);
        }
    }

    /// After re-pointing one region's parent link at `q` (which is not
    /// below `r`), every region still has an ancestor chain; chains not
    /// passing through `r` are unchanged.
    pub proof fn lemma_relink(pre: ElectionTree, post: ElectionTree, r: u32, q: u32)
        requires
            pre.wf_core(),
            pre.valid_region(r),
            pre.valid_region(q),
            r != q,
            !pre.the_chain(q).contains(r),
            forall|x: u32| pre.valid_region(x) <==> #[trigger] post.valid_region(x),
            forall|x: u32|
                #[trigger] pre.valid_region(x) && x != r ==> post.parent_of(x) == pre.parent_of(
                    x,
                ),
            post.parent_of(r) == Some(q),
        ensures
            forall|x: u32| #[trigger] post.valid_region(x) ==> post.has_chain(x),
            post.the_chain(q) == pre.the_chain(q),
            post.the_chain(r) == seq![q] + pre.the_chain(q),
            forall|x: u32|
                #[trigger] pre.valid_region(x) && x != r && !pre.the_chain(x).contains(r)
                    ==> post.the_chain(x) == pre.the_chain(x),
    {
        pre.lemma_the_chain(q);
        let cq = pre.the_chain(q);
        assert(post.chain_ok(q, cq)) by {
            assert(forall|k: int| 0 <= k < cq.len() ==> cq[k] != r);
            if cq.len() > 0 {
                assert forall|k: int| 0 <= k < cq.len() - 1 implies post.parent_of(
                    #[trigger] cq[k],
                ) == Some(cq[k + 1]) by {}
            }
        }
        let cr = seq![q] + cq;
        assert(post.chain_ok(r, cr)) by {
            assert(cr[0] == q);
            assert forall|k: int| 0 <= k < cr.len() - 1 implies post.parent_of(#[trigger] cr[k])
                == Some(cr[k + 1]) by {
                if k > 0 {
                    assert(cr[k] == cq[k - 1]);
                    assert(cr[k + 1] == cq[k]);
                    assert(pre.parent_of(cq[k - 1]) == Some(cq[k]));
                }
            }
            assert(cr[cr.len() - 1] == if cq.len() == 0 {
                q
            } else {
                cq[cq.len() - 1]
            });
        }
        assert forall|x: u32| #[trigger] post.valid_region(x) implies post.has_chain(x) by {
            if x == r {
                assert(post.chain_ok(r, cr));
            } else {
                assert(pre.valid_region(x));
                pre.lemma_the_chain(x);
                let s = pre.the_chain(x);
                if s.contains(r) {
                    let i = choose|i: int| 0 <= i < s.len() && s[i] == r;
                    pre.lemma_chain_distinct(x, s);
                    let ns = s.subrange(0, i + 1) + cr;
                    assert forall|k: int| 0 <= k < ns.len() - 1 implies post.parent_of(
                        #[trigger] ns[k],
                    ) == Some(ns[k + 1]) by {
                        if k < i {
                            assert(ns[k] == s[k]);
                            assert(ns[k + 1] == s[k + 1]);
                            assert(s[k] != r);
                            assert(pre.parent_of(s[k]) == Some(s[k + 1]));
                        } else if k == i {
                            assert(ns[k] == r);
                            assert(ns[k + 1] == q);
                        } else {
                            assert(ns[k] == cr[k - i - 1]);
                            assert(ns[k + 1] == cr[k - i]);
                        }
                    }
                    assert(ns[ns.len() - 1] == cr[cr.len() - 1]);
                    assert(post.chain_ok(x, ns));
                } else {
                    assert(forall|k: int| 0 <= k < s.len() ==> s[k] != r);
                    assert forall|k: int| 0 <= k < s.len() - 1 implies post.parent_of(
                        #[trigger] s[k],
                    ) == Some(s[k + 1]) by {}
                    assert(post.chain_ok(x, s));
                }
            }
        }
        assert(post.the_chain(q) == cq) by {
            post.lemma_chain_unique(q, post.the_chain(q), cq);
        }
        assert(post.the_chain(r) == cr) by {
            post.lemma_chain_unique(r, post.the_chain(r), cr);
        }
        assert forall|x: u32|
            #[trigger] pre.valid_region(x) && x != r && !pre.the_chain(x).contains(
                r,
            ) implies post.the_chain(x) == pre.the_chain(x) by {
            pre.lemma_the_chain(x);
            let s = pre.the_chain(x);
            assert(forall|k: int| 0 <= k < s.len() ==> s[k] != r);
            assert forall|k: int| 0 <= k < s.len() - 1 implies post.parent_of(#[trigger] s[k])
                == Some(s[k + 1]) by {}
            assert(post.chain_ok(x, s));
            post.lemma_chain_unique(x, post.the_chain(x), s);
        }
    }

    // ----- exec helpers -----

    /// Whether a region with this id exists.
    fn has_region(&self, id: u32) -> (b: bool)
        ensures
            b == self.valid_region(id),
    {
        let n = self.regions.len();
        if (id as usize) < n {
            self.regions[id as usize].is_some()
        } else {
            false
        }
    }

    /// Whether a candidacy with this id exists.
    fn has_candidacy(&self, id: u32) -> (b: bool)
        ensures
            b == self.valid_candidacy(id),
    {
        let n = self.candidacies.len();
        if (id as usize) < n {
            self.candidacies[id as usize].is_some()
        } else {
            false
        }
    }

    /// Read a region's parent link.
    fn parent_raw(&self, id: u32) -> (p: Option<u32>)
        requires
            self.valid_region(id),
        ensures
            p == self.parent_of(id),
    {
        match &self.regions[id as usize] {
            Some(b) => b.parent,
            None => None,
        }
    }

    // ----- clearing seats -----

    /// A region's snapshot with the vote counts blanked: what
    /// `clear_region` subtracts, so that only seats are affected.
    pub open spec fn seats_snapshot(s: Seq<(u32, SingleResult)>) -> Seq<(u32, SingleResult)> {
        s.map_values(|e: (u32, SingleResult)| (e.0, SingleResult { votes: 0u32, seats: e.1.seats }))
    }

    /// The whole effect of clearing a region's seats: for each candidacy
    /// recorded there, its seat count at the region was subtracted from
    /// the region, from every ancestor, and from the global root. Votes
    /// are untouched.
    pub open spec fn region_cleared(pre: ElectionTree, post: ElectionTree, r: u32) -> bool {
        let snap0 = Self::seats_snapshot(pre.results_of(r).entries@);
        &&& Self::same_structure(pre, post)
        &&& Self::table_snap_applied(pre.root.results, post.root.results, snap0, -1)
        &&& (forall|x: u32|
            #[trigger] pre.valid_region(x) ==> if pre.on_chain(r, x) {
                Self::table_snap_applied(pre.results_of(x), post.results_of(x), snap0, -1)
            } else {
                post.rbox(x).results == pre.rbox(x).results
            })
    }

    /// Zero the seat tallies of every candidacy recorded in a region,
    /// propagating each subtraction to the ancestors and the global root.
    /// Votes are left untouched.
    pub fn clear_region(&mut self, region_id: u32) -> (r: Result<(), ErrorTree>)
        requires
            old(self).wf(),
        ensures
            final(self).wf(),
            match r {
                Ok(_) => old(self).valid_region(region_id) && Self::region_cleared(
                    *old(self),
                    *final(self),
                    region_id,
                ) && (forall|c: u32| final(self).seats_of(region_id, c) == 0),
                Err(e) => *final(self) == *old(self) && !old(self).valid_region(region_id) && e
                    == ErrorTree::RegionNotFound,
            },
    {
        let ghost t0 = *old(self);
        if !self.has_region(region_id) {
            return Err(ErrorTree::RegionNotFound);
        }
        let entries: Vec<(u32, SingleResult)> = match &self.regions[region_id as usize] {
            Some(b) => b.results.iter_results(),
            None => Vec::new(),
        };
        let mut snap0: Vec<(u32, SingleResult)> = Vec::new();
        let n = entries.len();
        let mut j: usize = 0;
        while j < n
            invariant
                j <= n,
                n == entries@.len(),
                snap0@ =~= Self::seats_snapshot(entries@.take(j as int)),
            decreases n - j,
        {
            let id = entries[j].0;
            let s = entries[j].1.seats;
            snap0.push((id, SingleResult { votes: 0, seats: s }));
            proof {
                assert(Self::seats_snapshot(entries@.take(j as int + 1)) =~= Self::seats_snapshot(
                    entries@.take(j as int),
                ).push((id, SingleResult { votes: 0u32, seats: s })));
            }
            j = j + 1;
        }
        proof {
            assert(entries@.take(n as int) =~= entries@);
            assert(snap0@ =~= Self::seats_snapshot(entries@));
            assert(t0.results_of(region_id).wf());
            assert forall|i: int, k: int| 0 <= i < k < snap0@.len() implies snap0@[i].0
                != snap0@[k].0 by {
                assert(snap0@[i].0 == entries@[i].0);
                assert(snap0@[k].0 == entries@[k].0);
            }
        }
        self.apply_snapshot(region_id, &snap0, true);
        proof {
            let fin = *self;
            assert(Self::region_cleared(t0, fin, region_id));
            assert forall|c: u32| true implies fin.seats_of(region_id, c) == 0 by {
                assert(t0.valid_region(region_id));
                assert(t0.on_chain(region_id, region_id));
                assert(Self::table_snap_applied(
                    t0.results_of(region_id),
                    fin.results_of(region_id),
                    snap0@,
                    -1,
                ));
                assert(fin.results_of(region_id).spec_get(c) == if idx_of(snap0@, c) >= 0 {
                    Some(tally_apply(
                        t0.results_of(region_id).spec_get(c),
                        -1 * snap0@[idx_of(snap0@, c)].1.votes,
                        -1 * snap0@[idx_of(snap0@, c)].1.seats,
                    ))
                } else {
                    t0.results_of(region_id).spec_get(c)
                });
                lemma_idx_of(snap0@, c);
                if idx_of(snap0@, c) >= 0 {
                    let m = idx_of(snap0@, c);
                    assert(snap0@[m].0 == entries@[m].0);
                    assert(snap0@[m].1.seats == entries@[m].1.seats);
                    lemma_found(entries@, c, m);
                    assert(t0.results_of(region_id).spec_get(c) == Some(entries@[m].1));
                } else {
                    // no entry: the tally reads as zero
                    lemma_idx_of(entries@, c);
                    if idx_of(entries@, c) >= 0 {
                        let m = idx_of(entries@, c);
                        assert(snap0@[m].0 == entries@[m].0);
                        lemma_found(snap0@, c, m);
                    }
                }
            }
        }
        Ok(())
    }

    /// The ids of the regions that exist, in ascending order, considering
    /// ids below `n`.
    pub open spec fn region_ids_upto(self, n: int) -> Seq<u32>
        decreases n,
    {
        if n <= 0 {
            Seq::<u32>::empty()
        } else if self.valid_region((n - 1) as u32) {
            self.region_ids_upto(n - 1).push((n - 1) as u32)
        } else {
            self.region_ids_upto(n - 1)
        }
    }

    /// The ids of the leaf regions that exist, in ascending order,
    /// considering ids below `n`.
    pub open spec fn leaf_ids_upto(self, n: int) -> Seq<u32>
        decreases n,
    {
        if n <= 0 {
            Seq::<u32>::empty()
        } else if self.valid_region((n - 1) as u32) && self.spec_is_leaf((n - 1) as u32) {
            self.leaf_ids_upto(n - 1).push((n - 1) as u32)
        } else {
            self.leaf_ids_upto(n - 1)
        }
    }

    /// What `region_ids_upto` lists: exactly the existing ids below `n`.
    pub proof fn lemma_region_ids_upto(self, n: int)
        requires
            0 <= n <= u32::MAX,
        ensures
            forall|x: u32|
                #[trigger] self.region_ids_upto(n).contains(x) ==> x < n && self.valid_region(x),
            forall|x: u32|
                x < n && #[trigger] self.valid_region(x) ==> self.region_ids_upto(n).contains(x),
            forall|i1: int, i2: int|
                0 <= i1 < i2 < self.region_ids_upto(n).len() ==> self.region_ids_upto(n)[i1]
                    != self.region_ids_upto(n)[i2],
        decreases n,
    {
        if n > 0 {
            self.lemma_region_ids_upto(n - 1);
            let p = self.region_ids_upto(n - 1);
            let s = self.region_ids_upto(n);
            let last = (n - 1) as u32;
            assert forall|x: u32| s.contains(x) implies (x < n && self.valid_region(x)) by {
                let k = choose|k: int| 0 <= k < s.len() && s[k] == x;
                if self.valid_region(last) {
                    assert(s == p.push(last));
                    if k < p.len() {
                        assert(p[k] == x);
                        assert(p.contains(x));
                    } else {
                        assert(x == last);
                    }
                } else {
                    assert(s == p);
                    assert(p.contains(x));
                }
            }
            assert forall|x: u32| x < n && self.valid_region(x) implies s.contains(x) by {
                if x == last {
                    assert(s == p.push(last));
                    assert(s[s.len() - 1] == x);
                    assert(s.contains(x));
                } else {
                    assert(x < n - 1);
                    assert(p.contains(x));
                    let k = choose|k: int| 0 <= k < p.len() && p[k] == x;
                    if self.valid_region(last) {
                        assert(s == p.push(last));
                        assert(s[k] == x);
                    } else {
                        assert(s == p);
                        assert(s[k] == x);
                    }
                    assert(s.contains(x));
                }
            }
            assert forall|i1: int, i2: int| 0 <= i1 < i2 < s.len() implies s[i1] != s[i2] by {
                if self.valid_region(last) {
                    assert(s == p.push(last));
                    if i2 == s.len() - 1 {
                        assert(s[i1] == p[i1]);
                        assert(p.contains(p[i1]));
                        assert(p[i1] < n - 1);
                    } else {
                        assert(s[i1] == p[i1]);
                        assert(s[i2] == p[i2]);
                    }
                } else {
                    assert(s == p);
                }
            }
        }
    }

    /// All existing region ids, in ascending order.
    pub fn region_ids(&self) -> (r: Vec<u32>)
        requires
            self.wf(),
        ensures
            r@ == self.region_ids_upto(self.regions@.len() as int),
            forall|x: u32| r@.contains(x) <==> self.valid_region(x),
            forall|i1: int, i2: int| 0 <= i1 < i2 < r@.len() ==> r@[i1] != r@[i2],
    {
        let n = self.regions.len();
        let mut out: Vec<u32> = Vec::new();
        let mut j: usize = 0;
        while j < n
            invariant
                j <= n,
                n == self.regions@.len(),
                n <= u32::MAX,
                out@ == self.region_ids_upto(j as int),
            decreases n - j,
        {
            if self.regions[j].is_some() {
                out.push(j as u32);
            }
            j = j + 1;
        }
        proof {
            self.lemma_region_ids_upto(n as int);
            assert forall|x: u32| out@.contains(x) <==> self.valid_region(x) by {
                if self.valid_region(x) {
                    assert(x < n);
                }
            }
        }
        out
    }

    /// The ids of all leaf regions, in ascending order.
    pub fn leaf_region_ids(&self) -> (r: Vec<u32>)
        requires
            self.wf(),
        ensures
            r@ == self.leaf_ids_upto(self.regions@.len() as int),
            forall|x: u32|
                r@.contains(x) <==> (self.valid_region(x) && self.spec_is_leaf(x)),
            forall|i1: int, i2: int| 0 <= i1 < i2 < r@.len() ==> r@[i1] != r@[i2],
    {
        let n = self.regions.len();
        let mut out: Vec<u32> = Vec::new();
        let mut j: usize = 0;
        while j < n
            invariant
                j <= n,
                n == self.regions@.len(),
                n <= u32::MAX,
                out@ == self.leaf_ids_upto(j as int),
            decreases n - j,
        {
            let is_leaf_here: bool = match &self.regions[j] {
                Some(b) => b.children.len() == 0,
                None => false,
            };
            if is_leaf_here {
                out.push(j as u32);
            }
            j = j + 1;
        }
        proof {
            self.lemma_leaf_ids_upto(n as int);
            assert forall|x: u32|
                out@.contains(x) <==> (self.valid_region(x) && self.spec_is_leaf(x)) by {
                if self.valid_region(x) {
                    assert(x < n);
                }
            }
        }
        out
    }

    /// What `leaf_ids_upto` lists: exactly the existing leaf ids below `n`.
    pub proof fn lemma_leaf_ids_upto(self, n: int)
        requires
            0 <= n <= u32::MAX,
        ensures
            forall|x: u32|
                #[trigger] self.leaf_ids_upto(n).contains(x) ==> x < n && self.valid_region(x)
                    && self.spec_is_leaf(x),
            forall|x: u32|
                x < n && #[trigger] self.valid_region(x) && self.spec_is_leaf(x)
                    ==> self.leaf_ids_upto(n).contains(x),
            forall|i1: int, i2: int|
                0 <= i1 < i2 < self.leaf_ids_upto(n).len() ==> self.leaf_ids_upto(n)[i1]
                    != self.leaf_ids_upto(n)[i2],
        decreases n,
    {
        if n > 0 {
            self.lemma_leaf_ids_upto(n - 1);
            let p = self.leaf_ids_upto(n - 1);
            let s = self.leaf_ids_upto(n);
            let last = (n - 1) as u32;
            assert forall|x: u32|
                s.contains(x) implies (x < n && self.valid_region(x) && self.spec_is_leaf(
                x,
            )) by {
                let k = choose|k: int| 0 <= k < s.len() && s[k] == x;
                if self.valid_region(last) && self.spec_is_leaf(last) {
                    assert(s == p.push(last));
                    if k < p.len() {
                        assert(p[k] == x);
                        assert(p.contains(x));
                    } else {
                        assert(x == last);
                    }
                } else {
                    assert(s == p);
                    assert(p.contains(x));
                }
            }
            assert forall|x: u32|
                x < n && self.valid_region(x) && self.spec_is_leaf(x) implies s.contains(x) by {
                if x == last {
                    assert(s == p.push(last));
                    assert(s[s.len() - 1] == x);
                    assert(s.contains(x));
                } else {
                    assert(x < n - 1);
                    assert(p.contains(x));
                    let k = choose|k: int| 0 <= k < p.len() && p[k] == x;
                    if self.valid_region(last) && self.spec_is_leaf(last) {
                        assert(s == p.push(last));
                        assert(s[k] == x);
                    } else {
                        assert(s == p);
                        assert(s[k] == x);
                    }
                    assert(s.contains(x));
                }
            }
            assert forall|i1: int, i2: int| 0 <= i1 < i2 < s.len() implies s[i1] != s[i2] by {
                if self.valid_region(last) && self.spec_is_leaf(last) {
                    assert(s == p.push(last));
                    if i2 == s.len() - 1 {
                        assert(s[i1] == p[i1]);
                        assert(p.contains(p[i1]));
                        assert(p[i1] < n - 1);
                        assert(s[i2] == last);
                        assert(p[i1] != last);
                    } else {
                        assert(s[i1] == p[i1]);
                        assert(s[i2] == p[i2]);
                        assert(p[i1] != p[i2]);
                    }
                } else {
                    assert(s == p);
                    assert(s[i1] == p[i1]);
                    assert(s[i2] == p[i2]);
                    assert(p[i1] != p[i2]);
                }
            }
        }
    }

    /// Every ancestor has at least one child: no ancestor is a leaf.
    pub proof fn lemma_chain_nonleaf(self, r: u32)
        requires
            self.wf(),
            self.valid_region(r),
        ensures
            forall|i: int|
                0 <= i < self.the_chain(r).len() ==> !self.spec_is_leaf(
                    #[trigger] self.the_chain(r)[i],
                ),
    {
        self.lemma_the_chain(r);
        let s = self.the_chain(r);
        assert forall|i: int| 0 <= i < s.len() implies !self.spec_is_leaf(#[trigger] s[i]) by {
            if i == 0 {
                assert(self.parent_of(r) == Some(s[0]));
                assert(self.children_of(s[0]).contains(r));
                let k = choose|k: int|
                    0 <= k < self.children_of(s[0]).len() && self.children_of(s[0])[k] == r;
            } else {
                assert(self.parent_of(s[i - 1]) == Some(s[i]));
                assert(self.valid_region(s[i - 1]));
                assert(self.children_of(s[i]).contains(s[i - 1]));
                let k = choose|k: int|
                    0 <= k < self.children_of(s[i]).len() && self.children_of(s[i])[k] == s[i
                        - 1];
            }
        }
    }

    // ----- removing a candidacy's records -----

    /// The whole effect of deleting one candidacy's entry in one region:
    /// the entry's tallies were subtracted from every ancestor and from
    /// the global root, and the entry itself is gone from the region.
    pub open spec fn region_candidacy_removed(
        pre: ElectionTree,
        post: ElectionTree,
        r: u32,
        c: u32,
    ) -> bool {
        let v = pre.votes_of(r, c);
        let s = pre.seats_of(r, c);
        &&& Self::same_structure(pre, post)
        &&& post.results_of(r).wf()
        &&& post.entry_of(r, c) is None
        &&& (forall|c2: u32| c2 != c ==> post.entry_of(r, c2) == pre.entry_of(r, c2))
        &&& (forall|x: u32|
            #[trigger] pre.valid_region(x) && x != r ==> if pre.the_chain(r).contains(x) {
                table_updated(
                    pre.results_of(x),
                    post.results_of(x),
                    c,
                    -1 * v,
                    -1 * s,
                )
            } else {
                post.rbox(x).results == pre.rbox(x).results
            })
        &&& table_updated(pre.root.results, post.root.results, c, -1 * v, -1 * s)
    }

    /// Zero one candidacy's votes and seats in one region, propagating the
    /// subtraction upward, then delete its entry from that region.
    pub fn remove_region_candidacy(&mut self, region_id: u32, candidacy_id: u32) -> (r: Result<
        (),
        ErrorTree,
    >)
        requires
            old(self).wf(),
        ensures
            final(self).wf(),
            match r {
                Ok(_) => old(self).valid_region(region_id) && old(self).valid_candidacy(
                    candidacy_id,
                ) && Self::region_candidacy_removed(
                    *old(self),
                    *final(self),
                    region_id,
                    candidacy_id,
                ),
                Err(e) => *final(self) == *old(self) && match e {
                    ErrorTree::RegionNotFound => !old(self).valid_region(region_id),
                    ErrorTree::CandidacyNotFound => old(self).valid_region(region_id) && !old(self).valid_candidacy(candidacy_id),
                    _ => false,
                },
            },
    {
        let ghost t0 = *old(self);
        if !self.has_region(region_id) {
            return Err(ErrorTree::RegionNotFound);
        }
        if !self.has_candidacy(candidacy_id) {
            return Err(ErrorTree::CandidacyNotFound);
        }
        let (v, s): (u32, u32) = match &self.regions[region_id as usize] {
            Some(b) => {
                match b.results.get_votes(candidacy_id) {
                    Some(v) => {
                        match b.results.get_seats(candidacy_id) {
                            Some(s) => (v, s),
                            None => (v, 0),
                        }
                    },
                    None => (0, 0),
                }
            },
            None => (0, 0),
        };
        proof {
            assert(v == t0.votes_of(region_id, candidacy_id));
            assert(s == t0.seats_of(region_id, candidacy_id));
        }
        self.apply_delta(region_id, candidacy_id, -(v as i64), -(s as i64));
        let ghost t1 = *self;
        proof {
            assert(t1.valid_region(region_id));
        }
        match &mut self.regions[region_id as usize] {
            Some(b) => b.results.remove_result(candidacy_id),
            None => {},
        }
        proof {
            let t2 = *self;
            assert(t2.regions@ == t1.regions@.update(
                region_id as int,
                t2.regions@[region_id as int],
            ));
            assert forall|x: u32| t1.valid_region(x) <==> #[trigger] t2.valid_region(x) by {}
            assert forall|x: u32|
                #[trigger] t1.valid_region(x) && x != region_id implies t2.rbox(x) == t1.rbox(
                x,
            ) by {}
            assert(t2.parent_of(region_id) == t1.parent_of(region_id));
            assert(t2.children_of(region_id) == t1.children_of(region_id));
            assert(t2.rbox(region_id).region == t1.rbox(region_id).region);
            Self::lemma_chain_frame(t1, t2);
            assert forall|r2: u32| #[trigger] t2.valid_region(r2) implies {
                &&& (t2.parent_of(r2) matches Some(u) ==> t2.valid_region(u))
                &&& t2.results_of(r2).wf()
                &&& t2.has_chain(r2)
            } by {
                assert(t1.valid_region(r2));
            }
            assert(t2.wf_core());
            assert forall|x: u32| t1.valid_region(x) <==> #[trigger] t2.valid_region(x) by {}
            assert forall|x: u32| #[trigger] t1.valid_region(x) implies t2.parent_of(x)
                == t1.parent_of(x) && t2.children_of(x) == t1.children_of(x) by {
                if x != region_id {
                    assert(t2.rbox(x) == t1.rbox(x));
                }
            }
            Self::lemma_children_wf_frame(t1, t2);
            // the region's own table: updated to zero, then the entry removed
            assert(t2.entry_of(region_id, candidacy_id) is None);
            assert forall|c2: u32| c2 != candidacy_id implies t2.entry_of(region_id, c2)
                == t0.entry_of(region_id, c2) by {
                assert(t0.on_chain(region_id, region_id));
                assert(table_updated(
                    t0.results_of(region_id),
                    t1.results_of(region_id),
                    candidacy_id,
                    -(v as int),
                    -(s as int),
                ));
            }
            // the ancestors: one propagated subtraction each
            t0.lemma_the_chain(region_id);
            t0.lemma_chain_no_self(region_id, t0.the_chain(region_id));
            assert forall|x: u32|
                #[trigger] t0.valid_region(x) && x != region_id implies if t0.the_chain(
                region_id,
            ).contains(x) {
                table_updated(
                    t0.results_of(x),
                    t2.results_of(x),
                    candidacy_id,
                    -1 * v,
                    -1 * s,
                )
            } else {
                t2.rbox(x).results == t0.rbox(x).results
            } by {
                assert(t1.valid_region(x));
                assert(t2.rbox(x) == t1.rbox(x));
                if t0.on_chain(region_id, x) {
                    assert(table_updated(
                        t0.results_of(x),
                        t1.results_of(x),
                        candidacy_id,
                        -(v as int),
                        -(s as int),
                    ));
                } else {
                    assert(t1.rbox(x).results == t0.rbox(x).results);
                }
            }
            assert(Self::same_structure(t0, t2)) by {
                assert forall|x: u32| t0.valid_region(x) <==> #[trigger] t2.valid_region(x) by {
                    assert(t0.valid_region(x) <==> t1.valid_region(x));
                }
                assert forall|x: u32| #[trigger] t0.valid_region(x) implies {
                    &&& t2.parent_of(x) == t0.parent_of(x)
                    &&& t2.children_of(x) == t0.children_of(x)
                    &&& t2.rbox(x).region == t0.rbox(x).region
                } by {
                    assert(t1.valid_region(x));
                    if x != region_id {
                        assert(t2.rbox(x) == t1.rbox(x));
                    }
                }
            }
            assert(Self::region_candidacy_removed(t0, t2, region_id, candidacy_id));
        }
        Ok(())
    }

    /// Whether any region exists at all.
    pub open spec fn some_region(self) -> bool {
        exists|x: u32| self.valid_region(x)
    }

    /// Zero a candidacy's votes and seats in every region (propagating
    /// through the tree) and delete its entries and its record.
    #[verifier::rlimit(100)]
    pub fn remove_candidacy(&mut self, candidacy_id: u32) -> (r: Result<(), ErrorTree>)
        requires
            old(self).wf(),
        ensures
            final(self).wf(),
            match r {
                Ok(_) => {
                    &&& (old(self).valid_candidacy(candidacy_id) || !old(self).some_region())
                    &&& !final(self).valid_candidacy(candidacy_id)
                    &&& (forall|c2: u32|
                        c2 != candidacy_id ==> (final(self).valid_candidacy(c2) <==> old(self).valid_candidacy(c2)) && (old(self).valid_candidacy(c2) ==> final(self).candidacies@[c2 as int] == old(self).candidacies@[c2 as int]))
                    &&& (forall|x: u32| old(self).valid_region(x) <==> #[trigger] final(self).valid_region(x))
                    &&& (forall|x: u32|
                        #[trigger] old(self).valid_region(x) ==> {
                            &&& final(self).parent_of(x) == old(self).parent_of(x)
                            &&& final(self).children_of(x) == old(self).children_of(x)
                            &&& final(self).rbox(x).region == old(self).rbox(x).region
                        })
                    &&& (forall|x: u32|
                        #[trigger] final(self).valid_region(x) ==> final(self).votes_of(
                            x,
                            candidacy_id,
                        ) == 0 && final(self).seats_of(x, candidacy_id) == 0)
                    &&& (forall|x: u32, c2: u32|
                        old(self).valid_region(x) && c2 != candidacy_id ==> #[trigger] final(self).entry_of(x, c2) == old(self).entry_of(x, c2))
                    &&& (forall|c2: u32|
                        c2 != candidacy_id ==> final(self).root_entry(c2) == old(self).root_entry(
                            c2,
                        ))
                    &&& final(self).root_votes(candidacy_id) <= old(self).root_votes(candidacy_id)
                    &&& final(self).root_seats(candidacy_id) <= old(self).root_seats(candidacy_id)
                },
                Err(e) => *final(self) == *old(self) && e == ErrorTree::CandidacyNotFound && !old(self).valid_candidacy(candidacy_id) && old(self).some_region(),
            },
    {
        let ghost t0 = *old(self);
        let ids = self.region_ids();
        if ids.len() > 0 {
            if !self.has_candidacy(candidacy_id) {
                proof {
                    assert(ids@.contains(ids@[0]));
                    assert(t0.valid_region(ids@[0]));
                    assert(t0.some_region());
                }
                return Err(ErrorTree::CandidacyNotFound);
            }
        } else {
            proof {
                if t0.some_region() {
                    let x = choose|x: u32| t0.valid_region(x);
                    t0.lemma_region_ids_upto(t0.regions@.len() as int);
                    assert(ids@.contains(x));
                }
            }
        }
        let n = ids.len();
        let mut j: usize = 0;
        while j < n
            invariant
                j <= n,
                n == ids@.len(),
                t0.wf(),
                self.wf(),
                n > 0 ==> t0.valid_candidacy(candidacy_id),
                forall|x: u32| ids@.contains(x) <==> t0.valid_region(x),
                forall|i1: int, i2: int| 0 <= i1 < i2 < ids@.len() ==> ids@[i1] != ids@[i2],
                Self::same_structure(t0, *self),
                forall|k: int|
                    0 <= k < j ==> self.votes_of(#[trigger] ids@[k], candidacy_id) == 0
                        && self.seats_of(ids@[k], candidacy_id) == 0,
                forall|x: u32, c2: u32|
                    t0.valid_region(x) && c2 != candidacy_id ==> #[trigger] self.entry_of(x, c2)
                        == t0.entry_of(x, c2),
                forall|c2: u32| c2 != candidacy_id ==> self.root_entry(c2) == t0.root_entry(c2),
                self.root_votes(candidacy_id) <= t0.root_votes(candidacy_id),
                self.root_seats(candidacy_id) <= t0.root_seats(candidacy_id),
                self.candidacies@ == t0.candidacies@,
            decreases n - j,
        {
            let ghost mid = *self;
            let rid = ids[j];
            proof {
                assert(ids@.contains(rid));
                assert(t0.valid_region(rid));
                assert(mid.valid_region(rid));
                assert(mid.valid_candidacy(candidacy_id));
            }
            let res = self.remove_region_candidacy(rid, candidacy_id);
            proof {
                let fin = *self;
                assert(res is Ok);
                assert(Self::region_candidacy_removed(mid, fin, rid, candidacy_id));
                mid.lemma_the_chain(rid);
                assert forall|k: int| 0 <= k < j + 1 implies self.votes_of(
                    #[trigger] ids@[k],
                    candidacy_id,
                ) == 0 && self.seats_of(ids@[k], candidacy_id) == 0 by {
                    let x = ids@[k];
                    assert(ids@.contains(x));
                    assert(t0.valid_region(x));
                    assert(mid.valid_region(x));
                    if k == j {
                        assert(x == rid);
                        assert(fin.entry_of(rid, candidacy_id) is None);
                    } else if x == rid {
                        assert(fin.entry_of(rid, candidacy_id) is None);
                    } else {
                        assert(mid.votes_of(x, candidacy_id) == 0);
                        assert(mid.seats_of(x, candidacy_id) == 0);
                        if mid.the_chain(rid).contains(x) {
                            assert(table_updated(
                                mid.results_of(x),
                                fin.results_of(x),
                                candidacy_id,
                                -1 * mid.votes_of(rid, candidacy_id),
                                -1 * mid.seats_of(rid, candidacy_id),
                            ));
                        } else {
                            assert(fin.rbox(x).results == mid.rbox(x).results);
                        }
                    }
                }
                assert forall|x: u32, c2: u32|
                    t0.valid_region(x) && c2 != candidacy_id implies #[trigger] fin.entry_of(x, c2)
                    == t0.entry_of(x, c2) by {
                    assert(mid.valid_region(x));
                    assert(mid.entry_of(x, c2) == t0.entry_of(x, c2));
                    if x == rid {
                        assert(fin.entry_of(rid, c2) == mid.entry_of(rid, c2));
                    } else if mid.the_chain(rid).contains(x) {
                        assert(table_updated(
                            mid.results_of(x),
                            fin.results_of(x),
                            candidacy_id,
                            -1 * mid.votes_of(rid, candidacy_id),
                            -1 * mid.seats_of(rid, candidacy_id),
                        ));
                    } else {
                        assert(fin.rbox(x).results == mid.rbox(x).results);
                    }
                }
                assert forall|x: u32| t0.valid_region(x) <==> #[trigger] fin.valid_region(x) by {
                    assert(t0.valid_region(x) <==> mid.valid_region(x));
                }
                assert forall|x: u32| #[trigger] t0.valid_region(x) implies {
                    &&& fin.parent_of(x) == t0.parent_of(x)
                    &&& fin.children_of(x) == t0.children_of(x)
                    &&& fin.rbox(x).region == t0.rbox(x).region
                } by {
                    assert(mid.valid_region(x));
                }
                assert(Self::same_structure(t0, fin));
            }
            j = j + 1;
        }
        let ghost tl = *self;
        if (candidacy_id as usize) < self.candidacies.len() {
            self.candidacies.set(candidacy_id as usize, None);
        }
        proof {
            let fin = *self;
            Self::lemma_wf_same_regions(tl, fin);
            assert forall|x: u32|
                #[trigger] fin.valid_region(x) implies fin.votes_of(x, candidacy_id) == 0
                && fin.seats_of(x, candidacy_id) == 0 by {
                assert(tl.valid_region(x));
                assert(t0.valid_region(x));
                assert(ids@.contains(x));
                let k = choose|k: int| 0 <= k < ids@.len() && ids@[k] == x;
                assert(tl.votes_of(ids@[k], candidacy_id) == 0);
                assert(tl.seats_of(ids@[k], candidacy_id) == 0);
                assert(fin.rbox(x) == tl.rbox(x));
            }
            assert forall|x: u32| t0.valid_region(x) <==> #[trigger] fin.valid_region(x) by {
                assert(t0.valid_region(x) <==> tl.valid_region(x));
            }
            assert forall|x: u32| #[trigger] t0.valid_region(x) implies {
                &&& fin.parent_of(x) == t0.parent_of(x)
                &&& fin.children_of(x) == t0.children_of(x)
                &&& fin.rbox(x).region == t0.rbox(x).region
            } by {
                assert(tl.valid_region(x));
                assert(fin.rbox(x) == tl.rbox(x));
            }
            assert forall|x: u32, c2: u32|
                t0.valid_region(x) && c2 != candidacy_id implies #[trigger] fin.entry_of(x, c2)
                == t0.entry_of(x, c2) by {
                assert(tl.entry_of(x, c2) == t0.entry_of(x, c2));
                assert(tl.valid_region(x));
                assert(fin.rbox(x) == tl.rbox(x));
            }
            assert forall|c2: u32| c2 != candidacy_id implies fin.root_entry(c2) == t0.root_entry(
                c2,
            ) by {
                assert(tl.root_entry(c2) == t0.root_entry(c2));
            }
            assert(!fin.valid_candidacy(candidacy_id));
            assert forall|c2: u32| c2 != candidacy_id implies (fin.valid_candidacy(c2) <==> t0.valid_candidacy(c2))
                && (t0.valid_candidacy(c2) ==> fin.candidacies@[c2 as int] == t0.candidacies@[c2 as int]) by {
                assert(tl.candidacies@ == t0.candidacies@);
            }
        }
        Ok(())
    }

    // ----- removing regions -----

    /// Whether `x` lies in the subtree rooted at `r` (including `r`).
    pub open spec fn desc_or_self(self, x: u32, r: u32) -> bool {
        x == r || self.the_chain(x).contains(r)
    }

    /// Sum of the named regions' vote tallies for one candidacy.
    pub open spec fn sum_votes(self, kids: Seq<u32>, c: u32) -> int
        decreases kids.len(),
    {
        if kids.len() == 0 {
            0
        } else {
            self.sum_votes(kids.drop_last(), c) + self.votes_of(kids.last(), c)
        }
    }

    /// Sum of the named regions' seat tallies for one candidacy.
    pub open spec fn sum_seats(self, kids: Seq<u32>, c: u32) -> int
        decreases kids.len(),
    {
        if kids.len() == 0 {
            0
        } else {
            self.sum_seats(kids.drop_last(), c) + self.seats_of(kids.last(), c)
        }
    }

    /// Sum of the top-level regions' vote tallies among ids below `n`.
    pub open spec fn top_votes_upto(self, n: int, c: u32) -> int
        decreases n,
    {
        if n <= 0 {
            0
        } else {
            self.top_votes_upto(n - 1, c) + if self.valid_region((n - 1) as u32)
                && self.parent_of((n - 1) as u32) is None {
                self.votes_of((n - 1) as u32, c) as int
            } else {
                0
            }
        }
    }

    /// Sum of the top-level regions' seat tallies among ids below `n`.
    pub open spec fn top_seats_upto(self, n: int, c: u32) -> int
        decreases n,
    {
        if n <= 0 {
            0
        } else {
            self.top_seats_upto(n - 1, c) + if self.valid_region((n - 1) as u32)
                && self.parent_of((n - 1) as u32) is None {
                self.seats_of((n - 1) as u32, c) as int
            } else {
                0
            }
        }
    }

    /// The rollup invariant for votes: every region with children carries
    /// exactly the sum of its children's vote tallies, and the global
    /// root carries the sum of the top-level regions' — so every count
    /// is the rollup of its whole subtree's directly recorded votes.
    pub open spec fn rollup_votes(self) -> bool {
        &&& (forall|x: u32, c: u32|
            self.valid_region(x) && !self.spec_is_leaf(x) ==> #[trigger] self.votes_of(x, c)
                == self.sum_votes(self.children_of(x), c))
        &&& (forall|c: u32|
            #[trigger] self.root_votes(c) == self.top_votes_upto(self.regions@.len() as int, c))
    }

    /// The rollup invariant for seats, mirroring `rollup_votes`.
    pub open spec fn rollup_seats(self) -> bool {
        &&& (forall|x: u32, c: u32|
            self.valid_region(x) && !self.spec_is_leaf(x) ==> #[trigger] self.seats_of(x, c)
                == self.sum_seats(self.children_of(x), c))
        &&& (forall|c: u32|
            #[trigger] self.root_seats(c) == self.top_seats_upto(self.regions@.len() as int, c))
    }

    /// A sum of vote tallies reads only its members' counts.
    pub proof fn lemma_sum_votes_congruent(
        pre: ElectionTree,
        post: ElectionTree,
        kids: Seq<u32>,
        c: u32,
    )
        requires
            forall|k: int| 0 <= k < kids.len() ==> post.votes_of(#[trigger] kids[k], c)
                == pre.votes_of(kids[k], c),
        ensures
            post.sum_votes(kids, c) == pre.sum_votes(kids, c),
        decreases kids.len(),
    {
        if kids.len() > 0 {
            Self::lemma_sum_votes_congruent(pre, post, kids.drop_last(), c);
            assert(kids[kids.len() - 1] == kids.last());
        }
    }

    /// Changing exactly one member's count moves the sum by the same
    /// delta.
    pub proof fn lemma_sum_votes_update(
        pre: ElectionTree,
        post: ElectionTree,
        kids: Seq<u32>,
        m: u32,
        c: u32,
        d: int,
    )
        requires
            kids.contains(m),
            forall|i: int, j: int| 0 <= i < j < kids.len() ==> kids[i] != kids[j],
            post.votes_of(m, c) == pre.votes_of(m, c) + d,
            forall|k: int|
                0 <= k < kids.len() && kids[k] != m ==> post.votes_of(#[trigger] kids[k], c)
                    == pre.votes_of(kids[k], c),
        ensures
            post.sum_votes(kids, c) == pre.sum_votes(kids, c) + d,
        decreases kids.len(),
    {
        let last = kids.last();
        let rest = kids.drop_last();
        if last == m {
            assert forall|k: int| 0 <= k < rest.len() implies rest[k] != m by {
                assert(rest[k] == kids[k]);
                assert(kids[k] != kids[kids.len() - 1]);
            }
            Self::lemma_sum_votes_congruent(pre, post, rest, c);
        } else {
            assert(rest.contains(m)) by {
                let i = choose|i: int| 0 <= i < kids.len() && kids[i] == m;
                assert(i < kids.len() - 1);
                assert(rest[i] == m);
            }
            Self::lemma_sum_votes_update(pre, post, rest, m, c, d);
        }
    }

    /// A sum of seat tallies reads only its members' counts.
    pub proof fn lemma_sum_seats_congruent(
        pre: ElectionTree,
        post: ElectionTree,
        kids: Seq<u32>,
        c: u32,
    )
        requires
            forall|k: int| 0 <= k < kids.len() ==> post.seats_of(#[trigger] kids[k], c)
                == pre.seats_of(kids[k], c),
        ensures
            post.sum_seats(kids, c) == pre.sum_seats(kids, c),
        decreases kids.len(),
    {
        if kids.len() > 0 {
            Self::lemma_sum_seats_congruent(pre, post, kids.drop_last(), c);
            assert(kids[kids.len() - 1] == kids.last());
        }
    }

    /// Changing exactly one member's seat count moves the sum by the
    /// same delta.
    pub proof fn lemma_sum_seats_update(
        pre: ElectionTree,
        post: ElectionTree,
        kids: Seq<u32>,
        m: u32,
        c: u32,
        d: int,
    )
        requires
            kids.contains(m),
            forall|i: int, j: int| 0 <= i < j < kids.len() ==> kids[i] != kids[j],
            post.seats_of(m, c) == pre.seats_of(m, c) + d,
            forall|k: int|
                0 <= k < kids.len() && kids[k] != m ==> post.seats_of(#[trigger] kids[k], c)
                    == pre.seats_of(kids[k], c),
        ensures
            post.sum_seats(kids, c) == pre.sum_seats(kids, c) + d,
        decreases kids.len(),
    {
        let last = kids.last();
        let rest = kids.drop_last();
        if last == m {
            assert forall|k: int| 0 <= k < rest.len() implies rest[k] != m by {
                assert(rest[k] == kids[k]);
                assert(kids[k] != kids[kids.len() - 1]);
            }
            Self::lemma_sum_seats_congruent(pre, post, rest, c);
        } else {
            assert(rest.contains(m)) by {
                let i = choose|i: int| 0 <= i < kids.len() && kids[i] == m;
                assert(i < kids.len() - 1);
                assert(rest[i] == m);
            }
            Self::lemma_sum_seats_update(pre, post, rest, m, c, d);
        }
    }

    /// The top-level sum reads only the top-level regions' counts.
    pub proof fn lemma_top_votes_congruent(pre: ElectionTree, post: ElectionTree, n: int, c: u32)
        requires
            forall|x: u32| pre.valid_region(x) <==> #[trigger] post.valid_region(x),
            forall|x: u32| #[trigger] pre.valid_region(x) ==> post.parent_of(x) == pre.parent_of(x),
            forall|x: u32|
                pre.valid_region(x) && pre.parent_of(x) is None ==> #[trigger] post.votes_of(x, c)
                    == pre.votes_of(x, c),
        ensures
            post.top_votes_upto(n, c) == pre.top_votes_upto(n, c),
        decreases n,
    {
        if n > 0 {
            Self::lemma_top_votes_congruent(pre, post, n - 1, c);
        }
    }

    /// Changing exactly one top-level region's count moves the top-level
    /// sum by the same delta.
    pub proof fn lemma_top_votes_update(
        pre: ElectionTree,
        post: ElectionTree,
        n: int,
        m: u32,
        c: u32,
        d: int,
    )
        requires
            0 <= m < n <= u32::MAX,
            pre.valid_region(m),
            pre.parent_of(m) is None,
            forall|x: u32| pre.valid_region(x) <==> #[trigger] post.valid_region(x),
            forall|x: u32| #[trigger] pre.valid_region(x) ==> post.parent_of(x) == pre.parent_of(x),
            post.votes_of(m, c) == pre.votes_of(m, c) + d,
            forall|x: u32|
                pre.valid_region(x) && pre.parent_of(x) is None && x != m
                    ==> #[trigger] post.votes_of(x, c) == pre.votes_of(x, c),
        ensures
            post.top_votes_upto(n, c) == pre.top_votes_upto(n, c) + d,
        decreases n,
    {
        if m == n - 1 {
            Self::lemma_top_votes_congruent_below(pre, post, n - 1, m, c);
        } else {
            Self::lemma_top_votes_update(pre, post, n - 1, m, c, d);
        }
    }

    /// Helper: below the changed id, the top-level sum is untouched.
    proof fn lemma_top_votes_congruent_below(
        pre: ElectionTree,
        post: ElectionTree,
        n: int,
        m: u32,
        c: u32,
    )
        requires
            forall|x: u32| pre.valid_region(x) <==> #[trigger] post.valid_region(x),
            forall|x: u32| #[trigger] pre.valid_region(x) ==> post.parent_of(x) == pre.parent_of(x),
            forall|x: u32|
                pre.valid_region(x) && pre.parent_of(x) is None && x != m
                    ==> #[trigger] post.votes_of(x, c) == pre.votes_of(x, c),
            n <= m,
        ensures
            post.top_votes_upto(n, c) == pre.top_votes_upto(n, c),
        decreases n,
    {
        if n > 0 {
            Self::lemma_top_votes_congruent_below(pre, post, n - 1, m, c);
        }
    }

    /// The top-level seat sum reads only the top-level regions' counts.
    pub proof fn lemma_top_seats_congruent(pre: ElectionTree, post: ElectionTree, n: int, c: u32)
        requires
            forall|x: u32| pre.valid_region(x) <==> #[trigger] post.valid_region(x),
            forall|x: u32| #[trigger] pre.valid_region(x) ==> post.parent_of(x) == pre.parent_of(x),
            forall|x: u32|
                pre.valid_region(x) && pre.parent_of(x) is None ==> #[trigger] post.seats_of(x, c)
                    == pre.seats_of(x, c),
        ensures
            post.top_seats_upto(n, c) == pre.top_seats_upto(n, c),
        decreases n,
    {
        if n > 0 {
            Self::lemma_top_seats_congruent(pre, post, n - 1, c);
        }
    }

    /// Changing exactly one top-level region's seat count moves the
    /// top-level seat sum by the same delta.
    pub proof fn lemma_top_seats_update(
        pre: ElectionTree,
        post: ElectionTree,
        n: int,
        m: u32,
        c: u32,
        d: int,
    )
        requires
            0 <= m < n <= u32::MAX,
            pre.valid_region(m),
            pre.parent_of(m) is None,
            forall|x: u32| pre.valid_region(x) <==> #[trigger] post.valid_region(x),
            forall|x: u32| #[trigger] pre.valid_region(x) ==> post.parent_of(x) == pre.parent_of(x),
            post.seats_of(m, c) == pre.seats_of(m, c) + d,
            forall|x: u32|
                pre.valid_region(x) && pre.parent_of(x) is None && x != m
                    ==> #[trigger] post.seats_of(x, c) == pre.seats_of(x, c),
        ensures
            post.top_seats_upto(n, c) == pre.top_seats_upto(n, c) + d,
        decreases n,
    {
        if m == n - 1 {
            Self::lemma_top_seats_congruent_below(pre, post, n - 1, m, c);
        } else {
            Self::lemma_top_seats_update(pre, post, n - 1, m, c, d);
        }
    }

    /// Helper: below the changed id, the top-level seat sum is untouched.
    proof fn lemma_top_seats_congruent_below(
        pre: ElectionTree,
        post: ElectionTree,
        n: int,
        m: u32,
        c: u32,
    )
        requires
            forall|x: u32| pre.valid_region(x) <==> #[trigger] post.valid_region(x),
            forall|x: u32| #[trigger] pre.valid_region(x) ==> post.parent_of(x) == pre.parent_of(x),
            forall|x: u32|
                pre.valid_region(x) && pre.parent_of(x) is None && x != m
                    ==> #[trigger] post.seats_of(x, c) == pre.seats_of(x, c),
            n <= m,
        ensures
            post.top_seats_upto(n, c) == pre.top_seats_upto(n, c),
        decreases n,
    {
        if n > 0 {
            Self::lemma_top_seats_congruent_below(pre, post, n - 1, m, c);
        }
    }

    /// The rollup invariant is preserved by a tally delta recorded at a
    /// leaf region — the system's vote path — whenever no count clamps:
    /// the delta lands alike on the leaf, on each ancestor, and on the
    /// global root, so every rollup equation shifts by the same amount.
    #[verifier::rlimit(100)]
    pub proof fn lemma_leaf_delta_preserves_rollup(
        pre: ElectionTree,
        post: ElectionTree,
        region: u32,
        c: u32,
        dv: int,
        ds: int,
    )
        requires
            pre.wf(),
            pre.valid_region(region),
            pre.spec_is_leaf(region),
            Self::delta_applied(pre, post, region, c, dv, ds),
            forall|x: u32|
                #[trigger] pre.on_chain(region, x) && pre.valid_region(x) ==> 0 <= pre.votes_of(
                    x,
                    c,
                ) + dv <= u32::MAX && 0 <= pre.seats_of(x, c) + ds <= u32::MAX,
            0 <= pre.root_votes(c) + dv <= u32::MAX,
            0 <= pre.root_seats(c) + ds <= u32::MAX,
        ensures
            pre.rollup_votes() ==> post.rollup_votes(),
            pre.rollup_seats() ==> post.rollup_seats(),
    {
        pre.lemma_the_chain(region);
        let ch = pre.the_chain(region);
        pre.lemma_chain_distinct(region, ch);
        pre.lemma_chain_no_self(region, ch);
        let n = pre.regions@.len() as int;
        // the delta lands exactly on the update set
        assert forall|x: u32|
            pre.valid_region(x) && #[trigger] pre.on_chain(region, x) implies post.votes_of(x, c)
            == pre.votes_of(x, c) + dv && post.seats_of(x, c) == pre.seats_of(x, c) + ds by {
            assert(table_updated(pre.results_of(x), post.results_of(x), c, dv, ds));
        }
        assert forall|x: u32|
            pre.valid_region(x) && !#[trigger] pre.on_chain(region, x) implies post.rbox(
            x,
        ).results == pre.rbox(x).results by {}
        assert forall|x: u32, c2: u32|
            pre.valid_region(x) && c2 != c implies #[trigger] post.votes_of(x, c2)
            == pre.votes_of(x, c2) && #[trigger] post.seats_of(x, c2) == pre.seats_of(x, c2) by {
            if pre.on_chain(region, x) {
                assert(table_updated(pre.results_of(x), post.results_of(x), c, dv, ds));
            }
        }
        // which member of a child list the delta reaches
        assert forall|x: u32, y: u32|
            pre.valid_region(x) && !pre.on_chain(region, x) && pre.valid_region(y)
                && #[trigger] pre.children_of(x).contains(y) implies !pre.on_chain(
            region,
            y,
        ) by {
            assert(pre.parent_of(y) == Some(x));
            if y == region {
                assert(ch[0] == x);
                assert(ch.contains(x));
            } else if ch.contains(y) {
                let j = choose|j: int| 0 <= j < ch.len() && ch[j] == y;
                if j < ch.len() - 1 {
                    assert(pre.parent_of(ch[j]) == Some(ch[j + 1]));
                    assert(ch[j + 1] == x);
                    assert(ch.contains(x));
                } else {
                    assert(pre.parent_of(ch[j]) is None);
                }
            }
        }
        // the chain's own child lists each hold exactly one updated member
        assert forall|i: int, y: u32|
            0 <= i < ch.len() && pre.valid_region(y) && #[trigger] pre.children_of(
                ch[i],
            ).contains(y) && y != (if i == 0 {
                region
            } else {
                ch[i - 1]
            }) implies !pre.on_chain(region, y) by {
            assert(pre.parent_of(y) == Some(ch[i]));
            if y == region {
                assert(pre.parent_of(region) == Some(ch[0]));
                assert(ch[i] == ch[0]);
                assert(i == 0);
            } else if ch.contains(y) {
                let j = choose|j: int| 0 <= j < ch.len() && ch[j] == y;
                if j < ch.len() - 1 {
                    assert(pre.parent_of(ch[j]) == Some(ch[j + 1]));
                    assert(ch[j + 1] == ch[i]);
                    assert(j + 1 == i);
                } else {
                    assert(pre.parent_of(ch[j]) is None);
                }
            }
        }
        // the update set's one top-level member
        let mtop = if ch.len() == 0 {
            region
        } else {
            ch.last()
        };
        assert(pre.valid_region(mtop) && pre.parent_of(mtop) is None && pre.on_chain(
            region,
            mtop,
        )) by {
            if ch.len() > 0 {
                assert(ch.contains(ch.last()));
            }
        }
        assert forall|y: u32|
            pre.valid_region(y) && pre.parent_of(y) is None && y != mtop implies !pre.on_chain(
            region,
            y,
        ) by {
            if y == region {
                assert(ch.len() > 0);
                assert(pre.parent_of(region) == Some(ch[0]));
            } else if ch.contains(y) {
                let j = choose|j: int| 0 <= j < ch.len() && ch[j] == y;
                if j < ch.len() - 1 {
                    assert(pre.parent_of(ch[j]) == Some(ch[j + 1]));
                }
            }
        }
        if pre.rollup_votes() {
            assert forall|x: u32, c2: u32|
                post.valid_region(x) && !post.spec_is_leaf(x) implies #[trigger] post.votes_of(
                x,
                c2,
            ) == post.sum_votes(post.children_of(x), c2) by {
                assert(pre.valid_region(x));
                let kids = pre.children_of(x);
                assert(post.children_of(x) == kids);
                assert(!pre.spec_is_leaf(x));
                assert(pre.votes_of(x, c2) == pre.sum_votes(kids, c2));
                assert(x != region);
                if c2 != c {
                    assert forall|k: int| 0 <= k < kids.len() implies post.votes_of(
                        #[trigger] kids[k],
                        c2,
                    ) == pre.votes_of(kids[k], c2) by {
                        assert(pre.valid_region(kids[k]));
                    }
                    Self::lemma_sum_votes_congruent(pre, post, kids, c2);
                } else if pre.on_chain(region, x) {
                    let i = choose|i: int| 0 <= i < ch.len() && ch[i] == x;
                    let m = if i == 0 {
                        region
                    } else {
                        ch[i - 1]
                    };
                    assert(pre.parent_of(m) == Some(x)) by {
                        if i > 0 {
                            assert(pre.parent_of(ch[i - 1]) == Some(ch[i]));
                        }
                    }
                    assert(pre.valid_region(m));
                    assert(kids.contains(m));
                    assert(pre.on_chain(region, m)) by {
                        if i > 0 {
                            assert(ch.contains(ch[i - 1]));
                        }
                    }
                    assert(post.votes_of(m, c) == pre.votes_of(m, c) + dv);
                    assert forall|k: int|
                        0 <= k < kids.len() && kids[k] != m implies post.votes_of(
                        #[trigger] kids[k],
                        c,
                    ) == pre.votes_of(kids[k], c) by {
                        assert(pre.valid_region(kids[k]));
                        assert(pre.children_of(ch[i]).contains(kids[k]));
                        assert(!pre.on_chain(region, kids[k]));
                    }
                    Self::lemma_sum_votes_update(pre, post, kids, m, c, dv);
                } else {
                    assert forall|k: int| 0 <= k < kids.len() implies post.votes_of(
                        #[trigger] kids[k],
                        c,
                    ) == pre.votes_of(kids[k], c) by {
                        assert(pre.valid_region(kids[k]));
                        assert(pre.children_of(x).contains(kids[k]));
                        assert(!pre.on_chain(region, kids[k]));
                    }
                    Self::lemma_sum_votes_congruent(pre, post, kids, c);
                    assert(post.votes_of(x, c) == pre.votes_of(x, c));
                }
            }
            assert forall|c2: u32| true implies #[trigger] post.root_votes(c2)
                == post.top_votes_upto(post.regions@.len() as int, c2) by {
                if c2 != c {
                    assert(post.root_votes(c2) == pre.root_votes(c2)) by {
                        assert(table_updated(pre.root.results, post.root.results, c, dv, ds));
                    }
                    Self::lemma_top_votes_congruent(pre, post, n, c2);
                } else {
                    assert(post.root_votes(c) == pre.root_votes(c) + dv) by {
                        assert(table_updated(pre.root.results, post.root.results, c, dv, ds));
                    }
                    assert(post.votes_of(mtop, c) == pre.votes_of(mtop, c) + dv);
                    assert forall|y: u32|
                        pre.valid_region(y) && pre.parent_of(y) is None && y != mtop implies
                        #[trigger] post.votes_of(y, c) == pre.votes_of(y, c) by {
                        assert(!pre.on_chain(region, y));
                    }
                    Self::lemma_top_votes_update(pre, post, n, mtop, c, dv);
                }
            }
        }
        if pre.rollup_seats() {
            assert forall|x: u32, c2: u32|
                post.valid_region(x) && !post.spec_is_leaf(x) implies #[trigger] post.seats_of(
                x,
                c2,
            ) == post.sum_seats(post.children_of(x), c2) by {
                assert(pre.valid_region(x));
                let kids = pre.children_of(x);
                assert(post.children_of(x) == kids);
                assert(!pre.spec_is_leaf(x));
                assert(pre.seats_of(x, c2) == pre.sum_seats(kids, c2));
                assert(x != region);
                if c2 != c {
                    assert forall|k: int| 0 <= k < kids.len() implies post.seats_of(
                        #[trigger] kids[k],
                        c2,
                    ) == pre.seats_of(kids[k], c2) by {
                        assert(pre.valid_region(kids[k]));
                    }
                    Self::lemma_sum_seats_congruent(pre, post, kids, c2);
                } else if pre.on_chain(region, x) {
                    let i = choose|i: int| 0 <= i < ch.len() && ch[i] == x;
                    let m = if i == 0 {
                        region
                    } else {
                        ch[i - 1]
                    };
                    assert(pre.parent_of(m) == Some(x)) by {
                        if i > 0 {
                            assert(pre.parent_of(ch[i - 1]) == Some(ch[i]));
                        }
                    }
                    assert(pre.valid_region(m));
                    assert(kids.contains(m));
                    assert(pre.on_chain(region, m)) by {
                        if i > 0 {
                            assert(ch.contains(ch[i - 1]));
                        }
                    }
                    assert(post.seats_of(m, c) == pre.seats_of(m, c) + ds);
                    assert forall|k: int|
                        0 <= k < kids.len() && kids[k] != m implies post.seats_of(
                        #[trigger] kids[k],
                        c,
                    ) == pre.seats_of(kids[k], c) by {
                        assert(pre.valid_region(kids[k]));
                        assert(pre.children_of(ch[i]).contains(kids[k]));
                        assert(!pre.on_chain(region, kids[k]));
                    }
                    Self::lemma_sum_seats_update(pre, post, kids, m, c, ds);
                } else {
                    assert forall|k: int| 0 <= k < kids.len() implies post.seats_of(
                        #[trigger] kids[k],
                        c,
                    ) == pre.seats_of(kids[k], c) by {
                        assert(pre.valid_region(kids[k]));
                        assert(pre.children_of(x).contains(kids[k]));
                        assert(!pre.on_chain(region, kids[k]));
                    }
                    Self::lemma_sum_seats_congruent(pre, post, kids, c);
                    assert(post.seats_of(x, c) == pre.seats_of(x, c));
                }
            }
            assert forall|c2: u32| true implies #[trigger] post.root_seats(c2)
                == post.top_seats_upto(post.regions@.len() as int, c2) by {
                if c2 != c {
                    assert(post.root_seats(c2) == pre.root_seats(c2)) by {
                        assert(table_updated(pre.root.results, post.root.results, c, dv, ds));
                    }
                    Self::lemma_top_seats_congruent(pre, post, n, c2);
                } else {
                    assert(post.root_seats(c) == pre.root_seats(c) + ds) by {
                        assert(table_updated(pre.root.results, post.root.results, c, dv, ds));
                    }
                    assert(post.seats_of(mtop, c) == pre.seats_of(mtop, c) + ds);
                    assert forall|y: u32|
                        pre.valid_region(y) && pre.parent_of(y) is None && y != mtop implies
                        #[trigger] post.seats_of(y, c) == pre.seats_of(y, c) by {
                        assert(!pre.on_chain(region, y));
                    }
                    Self::lemma_top_seats_update(pre, post, n, mtop, c, ds);
                }
            }
        }
    }

    /// The vote rollup depends only on the structure and the vote
    /// counts, so a step that preserves both preserves it.
    pub proof fn lemma_rollup_votes_frame(t1: ElectionTree, t2: ElectionTree)
        requires
            t1.wf(),
            t1.rollup_votes(),
            Self::same_structure(t1, t2),
            forall|x: u32, c: u32|
                t1.valid_region(x) ==> #[trigger] t2.votes_of(x, c) == t1.votes_of(x, c),
            forall|c: u32| #[trigger] t2.root_votes(c) == t1.root_votes(c),
        ensures
            t2.rollup_votes(),
    {
        assert forall|x: u32, c: u32|
            t2.valid_region(x) && !t2.spec_is_leaf(x) implies #[trigger] t2.votes_of(x, c)
            == t2.sum_votes(t2.children_of(x), c) by {
            assert(t1.valid_region(x));
            let kids = t1.children_of(x);
            assert(t2.children_of(x) == kids);
            assert(t1.votes_of(x, c) == t1.sum_votes(kids, c));
            assert forall|k: int| 0 <= k < kids.len() implies t2.votes_of(#[trigger] kids[k], c)
                == t1.votes_of(kids[k], c) by {
                assert(t1.valid_region(kids[k]));
            }
            Self::lemma_sum_votes_congruent(t1, t2, kids, c);
        }
        assert forall|c: u32| true implies #[trigger] t2.root_votes(c) == t2.top_votes_upto(
            t2.regions@.len() as int,
            c,
        ) by {
            Self::lemma_top_votes_congruent(t1, t2, t1.regions@.len() as int, c);
        }
    }

    /// The root's tallies dominate every region's own tallies — what the
    /// rollup invariant guarantees, the root being the sum of
    /// everything. Under it, detaching a region passes its tallies out
    /// of the root and back in without loss.
    pub open spec fn root_covers(self) -> bool {
        &&& (forall|x: u32, c: u32|
            self.valid_region(x) ==> self.root_votes(c) >= #[trigger] self.votes_of(x, c))
        &&& (forall|x: u32, c: u32|
            self.valid_region(x) ==> self.root_seats(c) >= #[trigger] self.seats_of(x, c))
    }

    /// The number of regions that exist among ids below `n`.
    pub open spec fn alive_upto(self, n: int) -> int
        decreases n,
    {
        if n <= 0 {
            0
        } else {
            self.alive_upto(n - 1) + if self.regions@[n - 1] is Some {
                1int
            } else {
                0int
            }
        }
    }

    pub proof fn lemma_alive_nonneg(self, n: int)
        ensures
            self.alive_upto(n) >= 0,
        decreases n,
    {
        if n > 0 {
            self.lemma_alive_nonneg(n - 1);
        }
    }

    /// Two trees whose regions exist at the same ids have the same count.
    pub proof fn lemma_alive_frame(t1: ElectionTree, t2: ElectionTree, n: int)
        requires
            forall|i: int| 0 <= i < n ==> (t1.regions@[i] is Some <==> t2.regions@[i] is Some),
        ensures
            t1.alive_upto(n) == t2.alive_upto(n),
        decreases n,
    {
        if n > 0 {
            Self::lemma_alive_frame(t1, t2, n - 1);
        }
    }

    /// Blanking one live slot lowers the count by one.
    pub proof fn lemma_alive_delete(t1: ElectionTree, t2: ElectionTree, d: int, n: int)
        requires
            0 <= d < n,
            t1.regions@[d] is Some,
            t2.regions@[d] is None,
            forall|i: int| 0 <= i < n && i != d ==> (t1.regions@[i] is Some <==> t2.regions@[i] is Some),
        ensures
            t2.alive_upto(n) == t1.alive_upto(n) - 1,
        decreases n,
    {
        if d == n - 1 {
            Self::lemma_alive_frame(t1, t2, n - 1);
        } else {
            Self::lemma_alive_delete(t1, t2, d, n - 1);
        }
    }

    /// If every existing region of a given kind has a parent of the same
    /// kind, then no region of that kind exists: ancestor chains end.
    proof fn lemma_doomed_chain(
        t: ElectionTree,
        doomed: spec_fn(u32) -> bool,
        x: u32,
        s: Seq<u32>,
        i: int,
    )
        requires
            t.chain_ok(x, s),
            t.valid_region(x),
            doomed(x),
            0 <= i < s.len(),
            forall|z: u32|
                t.valid_region(z) && #[trigger] doomed(z) ==> (t.parent_of(z) matches Some(y)
                    && t.valid_region(y) && doomed(y)),
        ensures
            doomed(s[i]),
        decreases i,
    {
        if i == 0 {
            assert(t.parent_of(x) == Some(s[0]));
        } else {
            Self::lemma_doomed_chain(t, doomed, x, s, i - 1);
            assert(t.parent_of(s[i - 1]) == Some(s[i]));
        }
    }

    #[verifier::rlimit(50)]
    proof fn lemma_doomed_none(t: ElectionTree, doomed: spec_fn(u32) -> bool, x: u32)
        requires
            t.wf_core(),
            forall|z: u32|
                t.valid_region(z) && #[trigger] doomed(z) ==> (t.parent_of(z) matches Some(y)
                    && t.valid_region(y) && doomed(y)),
        ensures
            !(t.valid_region(x) && doomed(x)),
    {
        if t.valid_region(x) && doomed(x) {
            t.lemma_the_chain(x);
            let s = t.the_chain(x);
            if s.len() == 0 {
                assert(t.parent_of(x) is None);
            } else {
                Self::lemma_doomed_chain(t, doomed, x, s, s.len() - 1);
                assert(t.parent_of(s[s.len() - 1]) is None);
            }
        }
    }

    /// Deleting a region that nothing references preserves
    /// well-formedness.
    proof fn lemma_delete(pre: ElectionTree, post: ElectionTree, r: u32)
        requires
            pre.wf(),
            pre.valid_region(r),
            pre.parent_of(r) is None,
            forall|x: u32| #[trigger] pre.valid_region(x) ==> pre.parent_of(x) != Some(r),
            post.regions@ == pre.regions@.update(r as int, None),
            post.candidacies@ == pre.candidacies@,
            post.root == pre.root,
        ensures
            post.wf(),
            forall|x: u32| #[trigger] post.valid_region(x) <==> (pre.valid_region(x) && x != r),
            forall|x: u32| #[trigger] post.valid_region(x) ==> post.rbox(x) == pre.rbox(x),
    {
        assert forall|x: u32| #[trigger] post.valid_region(x) <==> (pre.valid_region(x) && x
            != r) by {}
        assert forall|x: u32| #[trigger] post.valid_region(x) implies post.rbox(x) == pre.rbox(
            x,
        ) by {}
        // no child list can hold the deleted region, whose parent is None
        assert forall|y: u32|
            #[trigger] post.valid_region(y) implies !pre.children_of(y).contains(r) by {
            if pre.children_of(y).contains(r) {
                let i = choose|i: int| 0 <= i < pre.children_of(y).len() && pre.children_of(y)[i]
                    == r;
                assert(pre.valid_region(pre.children_of(y)[i]));
                assert(pre.parent_of(pre.children_of(y)[i]) == Some(y));
                assert(pre.parent_of(r) != Some(y));
            }
        }
        assert forall|x: u32| #[trigger] post.valid_region(x) implies {
            &&& (post.parent_of(x) matches Some(u) ==> post.valid_region(u))
            &&& post.results_of(x).wf()
            &&& post.has_chain(x)
        } by {
            assert(pre.valid_region(x));
            pre.lemma_the_chain(x);
            let s = pre.the_chain(x);
            assert forall|i: int| 0 <= i < s.len() implies s[i] != r by {
                if s[i] == r {
                    if i == 0 {
                        assert(pre.parent_of(x) == Some(r));
                    } else {
                        assert(pre.parent_of(s[i - 1]) == Some(s[i]));
                        assert(pre.valid_region(s[i - 1]));
                    }
                }
            }
            assert(x != r);
            assert(post.chain_ok(x, s));
            assert(post.parent_of(x) == pre.parent_of(x));
            match pre.parent_of(x) {
                Some(u) => {
                    assert(pre.valid_region(u));
                    assert(u != r) by {
                        assert(pre.parent_of(x) != Some(r));
                    }
                },
                None => {},
            }
        }
        assert(post.wf_core());
        assert forall|x: u32| #[trigger] post.valid_region(x) implies {
            &&& (forall|i: int|
                0 <= i < post.children_of(x).len() ==> {
                    &&& post.valid_region(#[trigger] post.children_of(x)[i])
                    &&& post.parent_of(post.children_of(x)[i]) == Some(x)
                })
            &&& (forall|i: int, j: int|
                0 <= i < j < post.children_of(x).len()
                    ==> post.children_of(x)[i] != post.children_of(x)[j])
        } by {
            assert(pre.valid_region(x));
            assert(post.children_of(x) == pre.children_of(x));
            assert(!pre.children_of(x).contains(r));
            assert forall|i: int| 0 <= i < post.children_of(x).len() implies {
                &&& post.valid_region(#[trigger] post.children_of(x)[i])
                &&& post.parent_of(post.children_of(x)[i]) == Some(x)
            } by {
                let ch = pre.children_of(x)[i];
                assert(pre.valid_region(ch));
                assert(pre.parent_of(ch) == Some(x));
                assert(pre.children_of(x).contains(ch));
                assert(ch != r);
                assert(post.rbox(ch) == pre.rbox(ch));
            }
        }
        assert forall|x: u32, u: u32|
            post.valid_region(x) && #[trigger] post.parent_of(x) == Some(u) && post.valid_region(
            u,
        ) implies #[trigger] post.children_of(u).contains(x) by {
            assert(pre.valid_region(x));
            assert(pre.parent_of(x) == Some(u));
            assert(pre.valid_region(u));
            assert(pre.children_of(u).contains(x));
            assert(post.children_of(u) == pre.children_of(u));
        }
        assert(post.children_wf());
    }

    /// One detached child's tallies leave the dominating root and come
    /// straight back: the root's counts are unchanged.
    proof fn lemma_detach_root_step(
        t1: ElectionTree,
        mid: ElectionTree,
        fin: ElectionTree,
        ch: u32,
        snapc: Seq<(u32, SingleResult)>,
        c: u32,
    )
        requires
            t1.root_covers(),
            t1.valid_region(ch),
            mid.valid_region(ch),
            snapc == mid.results_of(ch).entries@,
            mid.results_of(ch).wf(),
            mid.root_votes(c) == t1.root_votes(c),
            mid.root_seats(c) == t1.root_seats(c),
            mid.votes_of(ch, c) <= t1.votes_of(ch, c),
            mid.seats_of(ch, c) <= t1.seats_of(ch, c),
            fin.root_entry(c) == if idx_of(snapc, c) >= 0 {
                Some(
                    tally_apply(
                        Some(
                            tally_apply(
                                mid.root_entry(c),
                                -1 * snapc[idx_of(snapc, c)].1.votes,
                                -1 * snapc[idx_of(snapc, c)].1.seats,
                            ),
                        ),
                        snapc[idx_of(snapc, c)].1.votes as int,
                        snapc[idx_of(snapc, c)].1.seats as int,
                    ),
                )
            } else {
                mid.root_entry(c)
            },
        ensures
            fin.root_votes(c) == t1.root_votes(c),
            fin.root_seats(c) == t1.root_seats(c),
    {
        lemma_idx_of(snapc, c);
        if idx_of(snapc, c) >= 0 {
            let ix = idx_of(snapc, c);
            assert(snapc[ix].1.votes == mid.votes_of(ch, c));
            assert(snapc[ix].1.seats == mid.seats_of(ch, c));
            assert(t1.root_votes(c) >= t1.votes_of(ch, c));
            assert(t1.root_seats(c) >= t1.seats_of(ch, c));
        }
    }

    /// After a region was detached from its parent, every tally is at
    /// most what it was, and a dominating root still dominates, its own
    /// totals exactly preserved.
    proof fn lemma_unparent_shrinks(
        t0: ElectionTree,
        t1: ElectionTree,
        region_id: u32,
        had_parent: bool,
    )
        requires
            t0.wf(),
            t0.valid_region(region_id),
            had_parent ==> Self::unparent_applied(t0, t1, region_id),
            !had_parent ==> t1 == t0,
            forall|x: u32| t0.valid_region(x) <==> #[trigger] t1.valid_region(x),
        ensures
            forall|x: u32, c: u32|
                t0.valid_region(x) ==> #[trigger] t1.votes_of(x, c) <= t0.votes_of(x, c),
            forall|x: u32, c: u32|
                t0.valid_region(x) ==> #[trigger] t1.seats_of(x, c) <= t0.seats_of(x, c),
            t0.root_covers() ==> forall|c: u32|
                #[trigger] t1.root_votes(c) == t0.root_votes(c),
            t0.root_covers() ==> forall|c: u32|
                #[trigger] t1.root_seats(c) == t0.root_seats(c),
            t0.root_covers() ==> t1.root_covers(),
    {
        assert forall|x: u32, c: u32|
            t0.valid_region(x) implies #[trigger] t1.votes_of(x, c) <= t0.votes_of(x, c)
            && t1.seats_of(x, c) <= t0.seats_of(x, c) by {
            if had_parent {
                let snapr = t0.results_of(region_id).entries@;
                if t0.the_chain(region_id).contains(x) {
                    assert(Self::table_snap_applied(
                        t0.results_of(x),
                        t1.results_of(x),
                        snapr,
                        -1,
                    ));
                    lemma_idx_of(snapr, c);
                    if idx_of(snapr, c) >= 0 {
                        let ix = idx_of(snapr, c);
                        assert(t1.results_of(x).spec_get(c) == Some(tally_apply(
                            t0.results_of(x).spec_get(c),
                            -1 * snapr[ix].1.votes,
                            -1 * snapr[ix].1.seats,
                        )));
                    } else {
                        assert(t1.results_of(x).spec_get(c) == t0.results_of(x).spec_get(c));
                    }
                } else {
                    assert(t1.rbox(x).results == t0.rbox(x).results);
                }
            }
        }
        assert forall|x: u32, c: u32|
            t0.valid_region(x) implies #[trigger] t1.seats_of(x, c) <= t0.seats_of(x, c) by {
            assert(t1.votes_of(x, c) <= t0.votes_of(x, c));
        }
        if t0.root_covers() {
            assert forall|c: u32| true implies #[trigger] t1.root_votes(c) == t0.root_votes(c)
                && t1.root_seats(c) == t0.root_seats(c) by {
                if had_parent {
                    Self::lemma_detach_root_step(
                        t0,
                        t0,
                        t1,
                        region_id,
                        t0.results_of(region_id).entries@,
                        c,
                    );
                }
            }
            assert forall|c: u32| true implies #[trigger] t1.root_seats(c) == t0.root_seats(
                c,
            ) by {
                assert(t1.root_votes(c) == t0.root_votes(c));
            }
            assert forall|x: u32, c: u32|
                t1.valid_region(x) implies t1.root_votes(c) >= #[trigger] t1.votes_of(x, c) by {
                assert(t0.valid_region(x));
                assert(t0.root_votes(c) >= t0.votes_of(x, c));
                assert(t1.votes_of(x, c) <= t0.votes_of(x, c));
            }
            assert forall|x: u32, c: u32|
                t1.valid_region(x) implies t1.root_seats(c) >= #[trigger] t1.seats_of(x, c) by {
                assert(t0.valid_region(x));
                assert(t0.root_seats(c) >= t0.seats_of(x, c));
                assert(t1.seats_of(x, c) <= t0.seats_of(x, c));
            }
            assert(t1.root_covers());
        }
    }

    /// Detach every child of a top-level region, leaving each child
    /// top-level. The children's own tallies are untouched; the region's
    /// table (about to be discarded) absorbs the subtractions.
    fn detach_children(&mut self, p: u32) -> (kids: Vec<u32>)
        requires
            old(self).wf(),
            old(self).valid_region(p),
            old(self).parent_of(p) is None,
        ensures
            final(self).wf(),
            kids@ == old(self).children_of(p),
            final(self).regions@.len() == old(self).regions@.len(),
            final(self).candidacies@ == old(self).candidacies@,
            forall|x: u32| old(self).valid_region(x) <==> #[trigger] final(self).valid_region(x),
            forall|x: u32|
                #[trigger] old(self).valid_region(x) ==> final(self).rbox(x).region == old(self).rbox(x).region,
            forall|x: u32|
                #[trigger] old(self).valid_region(x) && x != p ==> final(self).rbox(x).results
                    == old(self).rbox(x).results,
            forall|x: u32|
                #[trigger] old(self).valid_region(x) && x != p ==> final(self).children_of(x)
                    == old(self).children_of(x),
            forall|x: u32|
                #[trigger] old(self).valid_region(x) && !kids@.contains(x) ==> final(self).parent_of(x) == old(self).parent_of(x),
            forall|x: u32| kids@.contains(x) ==> #[trigger] final(self).parent_of(x) is None,
            final(self).children_of(p).len() == 0,
            final(self).parent_of(p) is None,
            forall|x: u32, c: u32|
                old(self).valid_region(x) ==> #[trigger] final(self).votes_of(x, c) <= old(self).votes_of(x, c),
            forall|x: u32, c: u32|
                old(self).valid_region(x) ==> #[trigger] final(self).seats_of(x, c) <= old(self).seats_of(x, c),
            old(self).root_covers() ==> forall|c: u32|
                #[trigger] final(self).root_votes(c) == old(self).root_votes(c),
            old(self).root_covers() ==> forall|c: u32|
                #[trigger] final(self).root_seats(c) == old(self).root_seats(c),
    {
        let ghost t1 = *old(self);
        let kids: Vec<u32> = match &self.regions[p as usize] {
            Some(b) => clone_u32_vec(&b.children),
            None => Vec::new(),
        };
        let n = kids.len();
        let mut k: usize = 0;
        proof {
            assert(kids@ == t1.children_of(p));
            assert forall|i: int, j: int| 0 <= i < j < kids@.len() implies kids@[i] != kids@[j] by {}
            assert forall|i: int| 0 <= i < kids@.len() implies t1.valid_region(#[trigger] kids@[i])
                && t1.parent_of(kids@[i]) == Some(p) by {}
        }
        while k < n
            invariant
                k <= n,
                n == kids@.len(),
                t1.wf(),
                t1.valid_region(p),
                t1.parent_of(p) is None,
                kids@ == t1.children_of(p),
                forall|i: int, j: int| 0 <= i < j < kids@.len() ==> kids@[i] != kids@[j],
                self.wf(),
                self.regions@.len() == t1.regions@.len(),
                self.candidacies@ == t1.candidacies@,
                forall|x: u32| t1.valid_region(x) <==> #[trigger] self.valid_region(x),
                forall|x: u32|
                    #[trigger] t1.valid_region(x) ==> self.rbox(x).region == t1.rbox(x).region,
                forall|x: u32|
                    #[trigger] t1.valid_region(x) && x != p ==> self.rbox(x).results == t1.rbox(
                        x,
                    ).results,
                forall|x: u32|
                    #[trigger] t1.valid_region(x) && x != p ==> self.children_of(x)
                        == t1.children_of(x),
                forall|x: u32|
                    #[trigger] t1.valid_region(x) && !kids@.take(k as int).contains(x)
                        ==> self.parent_of(x) == t1.parent_of(x),
                forall|x: u32|
                    kids@.take(k as int).contains(x) ==> #[trigger] self.parent_of(x) is None,
                forall|x: u32|
                    self.children_of(p).contains(x) <==> (kids@.contains(x) && !kids@.take(
                        k as int,
                    ).contains(x)),
                self.parent_of(p) is None,
                forall|x: u32, c: u32|
                    t1.valid_region(x) ==> #[trigger] self.votes_of(x, c) <= t1.votes_of(x, c),
                forall|x: u32, c: u32|
                    t1.valid_region(x) ==> #[trigger] self.seats_of(x, c) <= t1.seats_of(x, c),
                t1.root_covers() ==> forall|c: u32|
                    #[trigger] self.root_votes(c) == t1.root_votes(c),
                t1.root_covers() ==> forall|c: u32|
                    #[trigger] self.root_seats(c) == t1.root_seats(c),
            decreases n - k,
        {
            let ghost mid = *self;
            let ch = kids[k];
            proof {
                assert(kids@.contains(ch));
                assert(t1.valid_region(ch));
                assert(mid.valid_region(ch));
                assert(mid.parent_of(ch) == Some(p)) by {
                    if kids@.take(k as int).contains(ch) {
                        let i = choose|i: int|
                            0 <= i < k && kids@.take(k as int)[i] == ch;
                        assert(kids@[i] == ch);
                        assert(kids@[k as int] == ch);
                    }
                    assert(mid.parent_of(ch) == t1.parent_of(ch));
                }
            }
            let res = self.unparent(ch);
            proof {
                let fin = *self;
                assert(res is Ok);
                assert(Self::unparent_applied(mid, fin, ch));
                mid.lemma_chain_step(ch, p);
                mid.lemma_chain_top(p);
                assert(mid.the_chain(ch) == seq![p] + Seq::<u32>::empty());
                assert(mid.the_chain(ch).len() == 1);
                assert(mid.the_chain(ch)[0] == p);
                assert forall|x: u32| mid.the_chain(ch).contains(x) implies x == p by {
                    let i = choose|i: int| 0 <= i < 1 && mid.the_chain(ch)[i] == x;
                }
                let ext = kids@.take(k as int + 1);
                assert(ext =~= kids@.take(k as int).push(ch));
                assert forall|x: u32| t1.valid_region(x) <==> #[trigger] fin.valid_region(x) by {
                    assert(t1.valid_region(x) <==> mid.valid_region(x));
                }
                assert forall|x: u32| #[trigger] t1.valid_region(x) implies fin.rbox(x).region
                    == t1.rbox(x).region by {
                    assert(mid.valid_region(x));
                }
                assert forall|x: u32|
                    #[trigger] t1.valid_region(x) && x != p implies fin.rbox(x).results == t1.rbox(
                    x,
                ).results by {
                    assert(mid.valid_region(x));
                    if mid.the_chain(ch).contains(x) {
                        assert(x == p);
                    } else {
                        assert(fin.rbox(x).results == mid.rbox(x).results);
                    }
                }
                assert forall|x: u32|
                    #[trigger] t1.valid_region(x) && x != p implies fin.children_of(x)
                    == t1.children_of(x) by {
                    assert(mid.valid_region(x));
                    assert(fin.children_of(x) == mid.children_of(x));
                }
                assert forall|x: u32|
                    #[trigger] t1.valid_region(x) && !ext.contains(x) implies fin.parent_of(x)
                    == t1.parent_of(x) by {
                    assert(mid.valid_region(x));
                    assert(!kids@.take(k as int).contains(x)) by {
                        if kids@.take(k as int).contains(x) {
                            let i = choose|i: int|
                                0 <= i < k && kids@.take(k as int)[i] == x;
                            assert(ext[i] == x);
                        }
                    }
                    assert(x != ch) by {
                        if x == ch {
                            assert(ext[k as int] == ch);
                        }
                    }
                    assert(fin.parent_of(x) == mid.parent_of(x));
                }
                assert forall|x: u32| ext.contains(x) implies #[trigger] fin.parent_of(x)
                    is None by {
                    if x == ch {
                    } else {
                        assert(kids@.take(k as int).contains(x)) by {
                            let i = choose|i: int| 0 <= i < ext.len() && ext[i] == x;
                            assert(i < k);
                            assert(kids@.take(k as int)[i] == x);
                        }
                        assert(mid.parent_of(x) is None);
                        assert(x != ch);
                        assert(mid.valid_region(x));
                        assert(fin.parent_of(x) == mid.parent_of(x));
                    }
                }
                assert forall|x: u32|
                    fin.children_of(p).contains(x) <==> (kids@.contains(x) && !ext.contains(
                    x,
                )) by {
                    assert(Self::child_removed(mid.children_of(p), fin.children_of(p), ch));
                    if fin.children_of(p).contains(x) {
                        assert(x != ch);
                        assert(mid.children_of(p).contains(x));
                        assert(!kids@.take(k as int).contains(x));
                        assert(!ext.contains(x)) by {
                            if ext.contains(x) {
                                let i = choose|i: int| 0 <= i < ext.len() && ext[i] == x;
                                assert(i < k + 1);
                                if i < k {
                                    assert(kids@.take(k as int)[i] == x);
                                } else {
                                    assert(x == ch);
                                }
                            }
                        }
                    }
                    if kids@.contains(x) && !ext.contains(x) {
                        assert(x != ch) by {
                            assert(ext[k as int] == ch);
                        }
                        assert(!kids@.take(k as int).contains(x)) by {
                            if kids@.take(k as int).contains(x) {
                                let i = choose|i: int|
                                    0 <= i < k && kids@.take(k as int)[i] == x;
                                assert(ext[i] == x);
                            }
                        }
                        assert(mid.children_of(p).contains(x));
                        assert(fin.children_of(p).contains(x));
                    }
                }
                assert(fin.parent_of(p) is None) by {
                    assert(mid.valid_region(p));
                    assert(p != ch);
                    assert(fin.parent_of(p) == mid.parent_of(p));
                }
                // tallies can only shrink, and with a dominating root the
                // detach leaves the root's totals exactly in place
                let snapc = mid.results_of(ch).entries@;
                assert forall|x: u32, c: u32|
                    t1.valid_region(x) implies #[trigger] fin.votes_of(x, c) <= t1.votes_of(
                    x,
                    c,
                ) by {
                    assert(mid.valid_region(x));
                    assert(mid.votes_of(x, c) <= t1.votes_of(x, c));
                    if mid.the_chain(ch).contains(x) {
                        assert(Self::table_snap_applied(
                            mid.results_of(x),
                            fin.results_of(x),
                            snapc,
                            -1,
                        ));
                        lemma_idx_of(snapc, c);
                        if idx_of(snapc, c) >= 0 {
                            let ix = idx_of(snapc, c);
                            assert(fin.results_of(x).spec_get(c) == Some(tally_apply(
                                mid.results_of(x).spec_get(c),
                                -1 * snapc[ix].1.votes,
                                -1 * snapc[ix].1.seats,
                            )));
                        } else {
                            assert(fin.results_of(x).spec_get(c) == mid.results_of(x).spec_get(
                                c,
                            ));
                        }
                    } else {
                        assert(fin.rbox(x).results == mid.rbox(x).results);
                    }
                }
                assert forall|x: u32, c: u32|
                    t1.valid_region(x) implies #[trigger] fin.seats_of(x, c) <= t1.seats_of(
                    x,
                    c,
                ) by {
                    assert(mid.valid_region(x));
                    assert(mid.seats_of(x, c) <= t1.seats_of(x, c));
                    if mid.the_chain(ch).contains(x) {
                        assert(Self::table_snap_applied(
                            mid.results_of(x),
                            fin.results_of(x),
                            snapc,
                            -1,
                        ));
                        lemma_idx_of(snapc, c);
                        if idx_of(snapc, c) >= 0 {
                            let ix = idx_of(snapc, c);
                            assert(fin.results_of(x).spec_get(c) == Some(tally_apply(
                                mid.results_of(x).spec_get(c),
                                -1 * snapc[ix].1.votes,
                                -1 * snapc[ix].1.seats,
                            )));
                        } else {
                            assert(fin.results_of(x).spec_get(c) == mid.results_of(x).spec_get(
                                c,
                            ));
                        }
                    } else {
                        assert(fin.rbox(x).results == mid.rbox(x).results);
                    }
                }
                if t1.root_covers() {
                    assert forall|c: u32| true implies #[trigger] fin.root_votes(c)
                        == t1.root_votes(c) by {
                        Self::lemma_detach_root_step(t1, mid, fin, ch, snapc, c);
                    }
                    assert forall|c: u32| true implies #[trigger] fin.root_seats(c)
                        == t1.root_seats(c) by {
                        Self::lemma_detach_root_step(t1, mid, fin, ch, snapc, c);
                    }
                }
            }
            k = k + 1;
        }
        proof {
            assert(kids@.take(n as int) =~= kids@);
            let ch = self.children_of(p);
            assert forall|x: u32| true implies !ch.contains(x) by {
                if ch.contains(x) {
                    assert(kids@.contains(x) && !kids@.take(n as int).contains(x));
                }
            }
            if ch.len() > 0 {
                assert(ch.contains(ch[0]));
            }
            if t1.root_covers() {
                assert forall|c: u32| true implies #[trigger] self.root_votes(c) == t1.root_votes(
                    c,
                ) && #[trigger] self.root_seats(c) == t1.root_seats(c) by {}
            }
        }
        kids
    }

    /// Remove a region: detach it from its parent, detach each of its
    /// children, and delete its storage. With `remove_children` the whole
    /// subtree is deleted; otherwise the children become top-level.
    #[verifier::rlimit(100)]
    pub fn remove_region(&mut self, region_id: u32, remove_children: bool) -> (r: Result<
        (),
        ErrorTree,
    >)
        requires
            old(self).wf(),
        ensures
            final(self).wf(),
            match r {
                Ok(_) => {
                    &&& old(self).valid_region(region_id)
                    &&& final(self).candidacies@ == old(self).candidacies@
                    &&& !final(self).valid_region(region_id)
                    &&& (forall|x: u32|
                        #[trigger] final(self).valid_region(x) ==> old(self).valid_region(x))
                    &&& (!remove_children ==> forall|x: u32|
                        x != region_id ==> (old(self).valid_region(x) <==> #[trigger] final(self).valid_region(x)))
                    &&& (remove_children ==> forall|x: u32|
                        #[trigger] old(self).valid_region(x) && !old(self).desc_or_self(
                            x,
                            region_id,
                        ) ==> final(self).valid_region(x))
                    &&& (remove_children ==> forall|x: u32|
                        #[trigger] final(self).valid_region(x) ==> !old(self).desc_or_self(
                            x,
                            region_id,
                        ))
                    &&& (forall|x: u32|
                        #[trigger] final(self).valid_region(x) && !old(self).the_chain(
                            region_id,
                        ).contains(x) ==> final(self).rbox(x).results == old(self).rbox(x).results)
                    &&& (forall|x: u32|
                        #[trigger] final(self).valid_region(x) ==> final(self).rbox(x).region
                            == old(self).rbox(x).region)
                    &&& (forall|x: u32|
                        #[trigger] final(self).valid_region(x) && !old(self).children_of(
                            region_id,
                        ).contains(x) ==> final(self).parent_of(x) == old(self).parent_of(x))
                    &&& (forall|x: u32|
                        #[trigger] final(self).valid_region(x) && old(self).children_of(
                            region_id,
                        ).contains(x) ==> final(self).parent_of(x) is None)
                    &&& (forall|x: u32|
                        #[trigger] final(self).valid_region(x) && old(self).parent_of(region_id)
                            != Some(x) ==> final(self).children_of(x) == old(self).children_of(x))
                    &&& (forall|x: u32|
                        #[trigger] final(self).valid_region(x) && old(self).parent_of(region_id)
                            == Some(x) ==> Self::child_removed(
                            old(self).children_of(x),
                            final(self).children_of(x),
                            region_id,
                        ))
                    &&& (old(self).root_covers() ==> forall|c: u32|
                        #[trigger] final(self).root_votes(c) == old(self).root_votes(c))
                    &&& (old(self).root_covers() ==> forall|c: u32|
                        #[trigger] final(self).root_seats(c) == old(self).root_seats(c))
                },
                Err(e) => *final(self) == *old(self) && !old(self).valid_region(region_id) && e
                    == ErrorTree::RegionNotFound,
            },
    {
        let ghost t0 = *old(self);
        if !self.has_region(region_id) {
            return Err(ErrorTree::RegionNotFound);
        }
        let par = self.parent_raw(region_id);
        match par {
            Some(_) => {
                let res = self.unparent(region_id);
                proof {
                    assert(res is Ok);
                }
            },
            None => {},
        }
        let ghost t1 = *self;
        proof {
            t0.lemma_the_chain(region_id);
            if par is Some {
                assert(Self::unparent_applied(t0, t1, region_id));
            }
            Self::lemma_unparent_shrinks(t0, t1, region_id, par is Some);
            assert(t1.valid_region(region_id));
            assert(t1.parent_of(region_id) is None);
            assert(t1.children_of(region_id) == t0.children_of(region_id)) by {
                match par {
                    Some(p) => {
                        assert(p != region_id) by {
                            if p == region_id {
                                assert(t0.the_chain(region_id)[0] == region_id);
                                t0.lemma_chain_no_self(region_id, t0.the_chain(region_id));
                            }
                        }
                    },
                    None => {},
                }
            }
        }
        if !remove_children {
            let kids = self.detach_children(region_id);
            let ghost t2 = *self;
            proof {
                assert(t2.valid_region(region_id));
            }
            self.regions.set(region_id as usize, None);
            proof {
                let fin = *self;
                assert(fin.regions@ == t2.regions@.update(region_id as int, None));
                assert forall|x: u32| #[trigger] t2.valid_region(x) implies t2.parent_of(x)
                    != Some(region_id) by {
                    if t2.parent_of(x) == Some(region_id) {
                        assert(t2.children_of(region_id).contains(x));
                    }
                }
                Self::lemma_delete(t2, fin, region_id);
                if t0.root_covers() {
                    assert(t1.root_covers());
                    assert forall|c: u32| true implies #[trigger] fin.root_votes(c)
                        == t0.root_votes(c) by {
                        assert(t2.root_votes(c) == t1.root_votes(c));
                        assert(t1.root_votes(c) == t0.root_votes(c));
                        assert(fin.root == t2.root);
                    }
                    assert forall|c: u32| true implies #[trigger] fin.root_seats(c)
                        == t0.root_seats(c) by {
                        assert(t2.root_seats(c) == t1.root_seats(c));
                        assert(t1.root_seats(c) == t0.root_seats(c));
                        assert(fin.root == t2.root);
                    }
                }
                // compose the detach phases with the deletion
                assert(kids@ == t0.children_of(region_id));
                assert forall|x: u32| #[trigger] fin.valid_region(x) implies t0.valid_region(
                    x,
                ) by {
                    assert(t2.valid_region(x));
                    assert(t1.valid_region(x));
                }
                assert forall|x: u32|
                    x != region_id implies (t0.valid_region(x) <==> #[trigger] fin.valid_region(
                    x,
                )) by {
                    assert(t0.valid_region(x) <==> t1.valid_region(x));
                    assert(t1.valid_region(x) <==> t2.valid_region(x));
                }
                assert forall|x: u32|
                    #[trigger] fin.valid_region(x) && !t0.the_chain(region_id).contains(
                    x,
                ) implies fin.rbox(x).results == t0.rbox(x).results by {
                    assert(t2.valid_region(x));
                    assert(t1.valid_region(x));
                    assert(t0.valid_region(x));
                    assert(fin.rbox(x) == t2.rbox(x));
                    assert(x != region_id);
                    assert(t2.rbox(x).results == t1.rbox(x).results);
                    if par is Some {
                        assert(t1.rbox(x).results == t0.rbox(x).results);
                    }
                }
                assert forall|x: u32| #[trigger] fin.valid_region(x) implies fin.rbox(x).region
                    == t0.rbox(x).region by {
                    assert(t2.valid_region(x));
                    assert(t1.valid_region(x));
                    assert(t0.valid_region(x));
                    assert(fin.rbox(x) == t2.rbox(x));
                    assert(t2.rbox(x).region == t1.rbox(x).region);
                    if par is Some {
                        assert(t1.rbox(x).region == t0.rbox(x).region);
                    }
                }
                assert forall|x: u32|
                    #[trigger] fin.valid_region(x) && !t0.children_of(region_id).contains(
                    x,
                ) implies fin.parent_of(x) == t0.parent_of(x) by {
                    assert(t2.valid_region(x));
                    assert(t1.valid_region(x));
                    assert(t0.valid_region(x));
                    assert(fin.rbox(x) == t2.rbox(x));
                    assert(!kids@.contains(x));
                    assert(t2.parent_of(x) == t1.parent_of(x));
                    assert(x != region_id);
                    if par is Some {
                        assert(t1.parent_of(x) == t0.parent_of(x));
                    }
                }
                assert forall|x: u32|
                    #[trigger] fin.valid_region(x) && t0.children_of(region_id).contains(
                    x,
                ) implies fin.parent_of(x) is None by {
                    assert(kids@.contains(x));
                    assert(t2.valid_region(x));
                    assert(t2.parent_of(x) is None);
                    assert(fin.rbox(x) == t2.rbox(x));
                }
                assert forall|x: u32|
                    #[trigger] fin.valid_region(x) && t0.parent_of(region_id) != Some(
                    x,
                ) implies fin.children_of(x) == t0.children_of(x) by {
                    assert(t2.valid_region(x));
                    assert(t1.valid_region(x));
                    assert(t0.valid_region(x));
                    assert(fin.rbox(x) == t2.rbox(x));
                    assert(x != region_id);
                    assert(t2.children_of(x) == t1.children_of(x));
                    if par is Some {
                        let p0 = t0.parent_of(region_id)->0;
                        assert(x != p0);
                        assert(t1.children_of(x) == t0.children_of(x));
                    }
                }
                assert forall|x: u32|
                    #[trigger] fin.valid_region(x) && t0.parent_of(region_id) == Some(
                    x,
                ) implies Self::child_removed(
                    t0.children_of(x),
                    fin.children_of(x),
                    region_id,
                ) by {
                    assert(par is Some);
                    assert(t2.valid_region(x));
                    assert(t1.valid_region(x));
                    assert(fin.rbox(x) == t2.rbox(x));
                    assert(x != region_id);
                    assert(t2.children_of(x) == t1.children_of(x));
                    assert(Self::child_removed(
                        t0.children_of(x),
                        t1.children_of(x),
                        region_id,
                    ));
                }
                assert(fin.candidacies@ == t0.candidacies@);
            }
            Ok(())
        } else {
            let mut pending: Vec<u32> = Vec::new();
            pending.push(region_id);
            proof {
                assert(t0.desc_or_self(region_id, region_id));
                assert(pending@[0] == region_id);
                assert forall|x: u32|
                    #[trigger] t1.valid_region(x) && x != region_id implies t1.parent_of(x)
                    == t0.parent_of(x) by {
                    if par is Some {
                        assert(t0.valid_region(x));
                    }
                }
                assert forall|x: u32|
                    #[trigger] self.valid_region(x) && t0.desc_or_self(x, region_id) implies (
                    pending@.contains(x) || (self.parent_of(x) matches Some(y)
                        && self.valid_region(y) && t0.desc_or_self(y, region_id))) by {
                    if x == region_id {
                        assert(pending@.contains(x));
                    } else {
                        assert(t0.the_chain(x).contains(region_id));
                        assert(t0.valid_region(x));
                        t0.lemma_the_chain(x);
                        let s = t0.the_chain(x);
                        assert(s.len() > 0) by {
                            if s.len() == 0 {
                                let i = choose|i: int| 0 <= i < s.len() && s[i] == region_id;
                            }
                        }
                        let y = s[0];
                        assert(t0.parent_of(x) == Some(y));
                        t0.lemma_chain_step(x, y);
                        assert(s == seq![y] + t0.the_chain(y));
                        assert(t0.desc_or_self(y, region_id)) by {
                            let i = choose|i: int| 0 <= i < s.len() && s[i] == region_id;
                            if i == 0 {
                                assert(y == region_id);
                            } else {
                                assert(t0.the_chain(y)[i - 1] == region_id);
                                assert(t0.the_chain(y).contains(region_id));
                            }
                        }
                        assert(self.parent_of(x) == Some(y));
                        assert(self.valid_region(y));
                    }
                }
            }
            loop
                invariant
                    t0.wf(),
                    t1.wf(),
                    t0.valid_region(region_id),
                    t1.parent_of(region_id) is None,
                    t1.valid_region(region_id),
                    forall|x: u32|
                        #[trigger] t1.valid_region(x) && x != region_id ==> t1.parent_of(x)
                            == t0.parent_of(x),
                    self.wf(),
                    self.candidacies@ == t1.candidacies@,
                    t1.candidacies@ == t0.candidacies@,
                    forall|x: u32| #[trigger] self.valid_region(x) ==> t1.valid_region(x),
                    forall|x: u32|
                        #[trigger] t1.valid_region(x) && !t0.desc_or_self(x, region_id)
                            ==> self.valid_region(x),
                    forall|x: u32| t1.valid_region(x) <==> t0.valid_region(x),
                    forall|x: u32|
                        #[trigger] self.valid_region(x) ==> self.rbox(x).region == t1.rbox(
                            x,
                        ).region,
                    forall|x: u32|
                        #[trigger] self.valid_region(x) && !t0.desc_or_self(x, region_id) ==> {
                            &&& self.rbox(x).results == t1.rbox(x).results
                            &&& self.children_of(x) == t1.children_of(x)
                            &&& self.parent_of(x) == t1.parent_of(x)
                        },
                    forall|x: u32|
                        #[trigger] self.valid_region(x) ==> (self.parent_of(x) == t1.parent_of(x)
                            || self.parent_of(x) is None),
                    forall|k: int|
                        0 <= k < pending@.len() ==> {
                            &&& self.valid_region(#[trigger] pending@[k])
                            &&& t0.desc_or_self(pending@[k], region_id)
                            &&& self.parent_of(pending@[k]) is None
                        },
                    forall|i: int, j: int|
                        0 <= i < j < pending@.len() ==> pending@[i] != pending@[j],
                    forall|x: u32|
                        #[trigger] self.valid_region(x) && t0.desc_or_self(x, region_id) ==> (
                        pending@.contains(x) || (self.parent_of(x) matches Some(y)
                            && self.valid_region(y) && t0.desc_or_self(y, region_id))),
                    t0.root_covers() ==> forall|c: u32|
                        #[trigger] self.root_votes(c) == t0.root_votes(c),
                    t0.root_covers() ==> forall|c: u32|
                        #[trigger] self.root_seats(c) == t0.root_seats(c),
                    t0.root_covers() ==> forall|x: u32, c: u32|
                        self.valid_region(x) ==> #[trigger] self.votes_of(x, c) <= t0.votes_of(
                            x,
                            c,
                        ),
                    t0.root_covers() ==> forall|x: u32, c: u32|
                        self.valid_region(x) ==> #[trigger] self.seats_of(x, c) <= t0.seats_of(
                            x,
                            c,
                        ),
                ensures
                    pending@.len() == 0,
                    t0.root_covers() ==> forall|c: u32|
                        #[trigger] self.root_votes(c) == t0.root_votes(c),
                    t0.root_covers() ==> forall|c: u32|
                        #[trigger] self.root_seats(c) == t0.root_seats(c),
                decreases self.alive_upto(self.regions@.len() as int),
            {
                let ghost cur = *self;
                let ghost pfull = pending@;
                let ghost mes = cur.alive_upto(cur.regions@.len() as int);
                proof {
                    cur.lemma_alive_nonneg(cur.regions@.len() as int);
                }
                let p = match pending.pop() {
                    Some(p) => p,
                    None => {
                        break ;
                    },
                };
                let ghost pend0 = pending@;
                let kids = self.detach_children(p);
                let ghost t3 = *self;
                proof {
                    assert(t3.valid_region(p)) by {
                        assert(cur.valid_region(p)) by {
                            assert(pfull[pfull.len() - 1] == p);
                        }
                    }
                }
                self.regions.set(p as usize, None);
                proof {
                    let fin = *self;
                    assert(fin.regions@ == t3.regions@.update(p as int, None));
                    assert forall|x: u32| #[trigger] t3.valid_region(x) implies t3.parent_of(x)
                        != Some(p) by {
                        if t3.parent_of(x) == Some(p) {
                            assert(t3.children_of(p).contains(x));
                        }
                    }
                    Self::lemma_delete(t3, fin, p);
                }
                let n = kids.len();
                let mut k: usize = 0;
                while k < n
                    invariant
                        k <= n,
                        n == kids@.len(),
                        pending@ == pend0 + kids@.take(k as int),
                    decreases n - k,
                {
                    pending.push(kids[k]);
                    proof {
                        assert(pending@ =~= pend0 + kids@.take(k as int + 1));
                    }
                    k = k + 1;
                }
                proof {
                    assert(kids@.take(n as int) =~= kids@);
                    let fin = *self;
                    let pnew = pending@;
                    assert(pnew == pend0 + kids@);
                    assert(pfull =~= pend0.push(p));
                    Self::lemma_cascade_step(t0, t1, cur, t3, fin, region_id, p, pfull, pend0, kids@, pnew);
                    if t0.root_covers() {
                        // the current state still dominates, so this step's
                        // detach leaves the root exactly in place
                        assert forall|x: u32, c: u32|
                            cur.valid_region(x) implies cur.root_votes(c) >= #[trigger] cur.votes_of(
                            x,
                            c,
                        ) by {
                            assert(t1.valid_region(x));
                            assert(t0.valid_region(x));
                            assert(cur.votes_of(x, c) <= t0.votes_of(x, c));
                            assert(cur.root_votes(c) == t0.root_votes(c));
                            assert(t0.root_votes(c) >= t0.votes_of(x, c));
                        }
                        assert forall|x: u32, c: u32|
                            cur.valid_region(x) implies cur.root_seats(c) >= #[trigger] cur.seats_of(
                            x,
                            c,
                        ) by {
                            assert(t1.valid_region(x));
                            assert(t0.valid_region(x));
                            assert(cur.seats_of(x, c) <= t0.seats_of(x, c));
                            assert(cur.root_seats(c) == t0.root_seats(c));
                            assert(t0.root_seats(c) >= t0.seats_of(x, c));
                        }
                        assert(cur.root_covers());
                        assert forall|c: u32| true implies #[trigger] fin.root_votes(c)
                            == t0.root_votes(c) by {
                            assert(t3.root_votes(c) == cur.root_votes(c));
                            assert(fin.root == t3.root);
                        }
                        assert forall|c: u32| true implies #[trigger] fin.root_seats(c)
                            == t0.root_seats(c) by {
                            assert(t3.root_seats(c) == cur.root_seats(c));
                            assert(fin.root == t3.root);
                        }
                        assert forall|x: u32, c: u32|
                            fin.valid_region(x) implies #[trigger] fin.votes_of(x, c)
                            <= t0.votes_of(x, c) by {
                            assert(t3.valid_region(x));
                            assert(cur.valid_region(x));
                            assert(t3.votes_of(x, c) <= cur.votes_of(x, c));
                            assert(fin.rbox(x) == t3.rbox(x));
                            assert(cur.votes_of(x, c) <= t0.votes_of(x, c));
                        }
                        assert forall|x: u32, c: u32|
                            fin.valid_region(x) implies #[trigger] fin.seats_of(x, c)
                            <= t0.seats_of(x, c) by {
                            assert(t3.valid_region(x));
                            assert(cur.valid_region(x));
                            assert(t3.seats_of(x, c) <= cur.seats_of(x, c));
                            assert(fin.rbox(x) == t3.rbox(x));
                            assert(cur.seats_of(x, c) <= t0.seats_of(x, c));
                        }
                    }
                    assert(t3.regions@.len() == cur.regions@.len());
                    assert forall|i: int|
                        0 <= i < cur.regions@.len() implies (cur.regions@[i] is Some
                        <==> t3.regions@[i] is Some) by {
                        assert(cur.valid_region(i as u32) <==> t3.valid_region(i as u32));
                    }
                    Self::lemma_alive_frame(cur, t3, cur.regions@.len() as int);
                    assert(t3.regions@[p as int] is Some) by {
                        assert(t3.valid_region(p));
                    }
                    assert(fin.regions@[p as int] is None);
                    assert forall|i: int|
                        0 <= i < fin.regions@.len() && i != p implies (t3.regions@[i] is Some
                        <==> fin.regions@[i] is Some) by {}
                    Self::lemma_alive_delete(t3, fin, p as int, fin.regions@.len() as int);
                    fin.lemma_alive_nonneg(fin.regions@.len() as int);
                    assert(fin.alive_upto(fin.regions@.len() as int) < mes);
                    assert(fin.alive_upto(fin.regions@.len() as int) >= 0);
                }
            }
            proof {
                let fin = *self;
                // with nothing pending, no doomed region can remain
                assert forall|x: u32|
                    #[trigger] fin.valid_region(x) implies !t0.desc_or_self(x, region_id) by {
                    if t0.desc_or_self(x, region_id) {
                        let doomed = |z: u32| t0.desc_or_self(z, region_id) && fin.valid_region(z);
                        assert forall|z: u32|
                            fin.valid_region(z) && #[trigger] doomed(z) implies (fin.parent_of(z)
                            matches Some(y) && fin.valid_region(y) && doomed(y)) by {
                            assert(fin.valid_region(z) && t0.desc_or_self(z, region_id));
                            assert(!Seq::<u32>::empty().contains(z));
                        }
                        assert(doomed(x));
                        Self::lemma_doomed_none(fin, doomed, x);
                    }
                }
                assert(!fin.valid_region(region_id)) by {
                    assert(t0.desc_or_self(region_id, region_id));
                }
                // compose with the initial detach
                assert forall|x: u32| #[trigger] fin.valid_region(x) implies t0.valid_region(
                    x,
                ) by {
                    assert(t1.valid_region(x));
                }
                assert forall|x: u32|
                    #[trigger] t0.valid_region(x) && !t0.desc_or_self(x, region_id) implies
                    fin.valid_region(x) by {
                    assert(t1.valid_region(x));
                }
                assert forall|x: u32|
                    #[trigger] fin.valid_region(x) && !t0.the_chain(region_id).contains(
                    x,
                ) implies fin.rbox(x).results == t0.rbox(x).results by {
                    assert(t1.valid_region(x));
                    assert(t0.valid_region(x));
                    assert(!t0.desc_or_self(x, region_id));
                    assert(fin.rbox(x).results == t1.rbox(x).results);
                    if par is Some {
                        assert(t1.rbox(x).results == t0.rbox(x).results);
                    }
                }
                assert forall|x: u32| #[trigger] fin.valid_region(x) implies fin.rbox(x).region
                    == t0.rbox(x).region by {
                    assert(t1.valid_region(x));
                    assert(t0.valid_region(x));
                    if par is Some {
                        assert(t1.rbox(x).region == t0.rbox(x).region);
                    }
                }
                assert forall|x: u32|
                    #[trigger] fin.valid_region(x) && !t0.children_of(region_id).contains(
                    x,
                ) implies fin.parent_of(x) == t0.parent_of(x) by {
                    assert(t1.valid_region(x));
                    assert(t0.valid_region(x));
                    assert(!t0.desc_or_self(x, region_id));
                    assert(fin.parent_of(x) == t1.parent_of(x));
                    assert(x != region_id);
                    if par is Some {
                        assert(t1.parent_of(x) == t0.parent_of(x));
                    }
                }
                assert forall|x: u32|
                    #[trigger] fin.valid_region(x) && t0.children_of(region_id).contains(
                    x,
                ) implies fin.parent_of(x) is None by {
                    // a child of the removed region is doomed and gone
                    assert(t0.valid_region(x));
                    let i = choose|i: int|
                        0 <= i < t0.children_of(region_id).len() && t0.children_of(region_id)[i]
                            == x;
                    assert(t0.valid_region(t0.children_of(region_id)[i]));
                    assert(t0.parent_of(t0.children_of(region_id)[i]) == Some(region_id));
                    t0.lemma_chain_step(x, region_id);
                    assert(t0.the_chain(x)[0] == region_id);
                    assert(t0.the_chain(x).contains(region_id));
                    assert(t0.desc_or_self(x, region_id));
                    assert(!fin.valid_region(x));
                }
                assert forall|x: u32|
                    #[trigger] fin.valid_region(x) && t0.parent_of(region_id) != Some(
                    x,
                ) implies fin.children_of(x) == t0.children_of(x) by {
                    assert(t1.valid_region(x));
                    assert(t0.valid_region(x));
                    assert(!t0.desc_or_self(x, region_id));
                    assert(fin.children_of(x) == t1.children_of(x));
                    assert(x != region_id);
                    if par is Some {
                        let p0 = t0.parent_of(region_id)->0;
                        assert(x != p0);
                        assert(t1.children_of(x) == t0.children_of(x));
                    }
                }
                assert forall|x: u32|
                    #[trigger] fin.valid_region(x) && t0.parent_of(region_id) == Some(
                    x,
                ) implies Self::child_removed(
                    t0.children_of(x),
                    fin.children_of(x),
                    region_id,
                ) by {
                    assert(par is Some);
                    assert(t1.valid_region(x));
                    assert(!t0.desc_or_self(x, region_id));
                    assert(fin.children_of(x) == t1.children_of(x));
                    assert(Self::child_removed(
                        t0.children_of(x),
                        t1.children_of(x),
                        region_id,
                    ));
                }
                assert(fin.candidacies@ == t0.candidacies@);
            }
            Ok(())
        }
    }


    /// Re-establish the cascade-removal loop invariants after one region
    /// was detached from its children and deleted.
    #[verifier::rlimit(100)]
    proof fn lemma_cascade_step(
        t0: ElectionTree,
        t1: ElectionTree,
        cur: ElectionTree,
        t3: ElectionTree,
        fin: ElectionTree,
        region_id: u32,
        p: u32,
        pfull: Seq<u32>,
        pend0: Seq<u32>,
        kids: Seq<u32>,
        pnew: Seq<u32>,
    )
        requires
            t0.wf(),
            t1.wf(),
            t0.valid_region(region_id),
            t1.parent_of(region_id) is None,
            t1.valid_region(region_id),
            forall|x: u32|
                #[trigger] t1.valid_region(x) && x != region_id ==> t1.parent_of(x)
                    == t0.parent_of(x),
            cur.wf(),
            forall|x: u32| #[trigger] cur.valid_region(x) ==> t1.valid_region(x),
            forall|x: u32|
                #[trigger] t1.valid_region(x) && !t0.desc_or_self(x, region_id)
                    ==> cur.valid_region(x),
            forall|x: u32| t1.valid_region(x) <==> t0.valid_region(x),
            forall|x: u32|
                #[trigger] cur.valid_region(x) ==> cur.rbox(x).region == t1.rbox(x).region,
            forall|x: u32|
                #[trigger] cur.valid_region(x) && !t0.desc_or_self(x, region_id) ==> {
                    &&& cur.rbox(x).results == t1.rbox(x).results
                    &&& cur.children_of(x) == t1.children_of(x)
                    &&& cur.parent_of(x) == t1.parent_of(x)
                },
            forall|x: u32|
                #[trigger] cur.valid_region(x) ==> (cur.parent_of(x) == t1.parent_of(x)
                    || cur.parent_of(x) is None),
            forall|k: int|
                0 <= k < pfull.len() ==> {
                    &&& cur.valid_region(#[trigger] pfull[k])
                    &&& t0.desc_or_self(pfull[k], region_id)
                    &&& cur.parent_of(pfull[k]) is None
                },
            forall|i: int, j: int| 0 <= i < j < pfull.len() ==> pfull[i] != pfull[j],
            forall|x: u32|
                #[trigger] cur.valid_region(x) && t0.desc_or_self(x, region_id) ==> (
                pfull.contains(x) || (cur.parent_of(x) matches Some(y) && cur.valid_region(y)
                    && t0.desc_or_self(y, region_id))),
            pfull.len() > 0,
            p == pfull[pfull.len() - 1],
            pend0 == pfull.drop_last(),
            pnew == pend0 + kids,
            // what detaching the children left behind
            t3.wf(),
            kids == cur.children_of(p),
            t3.candidacies@ == cur.candidacies@,
            forall|x: u32| cur.valid_region(x) <==> #[trigger] t3.valid_region(x),
            forall|x: u32|
                #[trigger] cur.valid_region(x) ==> t3.rbox(x).region == cur.rbox(x).region,
            forall|x: u32|
                #[trigger] cur.valid_region(x) && x != p ==> t3.rbox(x).results == cur.rbox(
                    x,
                ).results,
            forall|x: u32|
                #[trigger] cur.valid_region(x) && x != p ==> t3.children_of(x) == cur.children_of(
                    x,
                ),
            forall|x: u32|
                #[trigger] cur.valid_region(x) && !kids.contains(x) ==> t3.parent_of(x)
                    == cur.parent_of(x),
            forall|x: u32| kids.contains(x) ==> #[trigger] t3.parent_of(x) is None,
            t3.parent_of(p) is None,
            // what the deletion left behind
            fin.wf(),
            forall|x: u32| #[trigger] fin.valid_region(x) <==> (t3.valid_region(x) && x != p),
            forall|x: u32| #[trigger] fin.valid_region(x) ==> fin.rbox(x) == t3.rbox(x),
            fin.candidacies@ == t3.candidacies@,
        ensures
            forall|x: u32| #[trigger] fin.valid_region(x) ==> t1.valid_region(x),
            forall|x: u32|
                #[trigger] t1.valid_region(x) && !t0.desc_or_self(x, region_id)
                    ==> fin.valid_region(x),
            forall|x: u32|
                #[trigger] fin.valid_region(x) ==> fin.rbox(x).region == t1.rbox(x).region,
            forall|x: u32|
                #[trigger] fin.valid_region(x) && !t0.desc_or_self(x, region_id) ==> {
                    &&& fin.rbox(x).results == t1.rbox(x).results
                    &&& fin.children_of(x) == t1.children_of(x)
                    &&& fin.parent_of(x) == t1.parent_of(x)
                },
            forall|x: u32|
                #[trigger] fin.valid_region(x) ==> (fin.parent_of(x) == t1.parent_of(x)
                    || fin.parent_of(x) is None),
            forall|k: int|
                0 <= k < pnew.len() ==> {
                    &&& fin.valid_region(#[trigger] pnew[k])
                    &&& t0.desc_or_self(pnew[k], region_id)
                    &&& fin.parent_of(pnew[k]) is None
                },
            forall|i: int, j: int| 0 <= i < j < pnew.len() ==> pnew[i] != pnew[j],
            forall|x: u32|
                #[trigger] fin.valid_region(x) && t0.desc_or_self(x, region_id) ==> (
                pnew.contains(x) || (fin.parent_of(x) matches Some(y) && fin.valid_region(y)
                    && t0.desc_or_self(y, region_id))),
    {

                    assert(cur.valid_region(p) && t0.desc_or_self(p, region_id) && cur.parent_of(
                        p,
                    ) is None) by {
                        assert(pfull[pfull.len() - 1] == p);
                    }
                    assert(kids == cur.children_of(p));
                    // every child of a doomed region is doomed
                    assert forall|x: u32| kids.contains(x) implies t0.desc_or_self(x, region_id)
                        && cur.valid_region(x) && x != p && cur.parent_of(x) == Some(p) by {
                        let i = choose|i: int| 0 <= i < kids.len() && kids[i] == x;
                        assert(cur.valid_region(cur.children_of(p)[i]));
                        assert(cur.parent_of(cur.children_of(p)[i]) == Some(p));
                        assert(x != p);
                        assert(cur.parent_of(x) == t1.parent_of(x) || cur.parent_of(x) is None);
                        assert(t1.parent_of(x) == Some(p));
                        assert(t0.parent_of(x) == Some(p) && x != region_id) by {
                            if x == region_id {
                                assert(t1.parent_of(region_id) is None);
                            }
                            assert(t1.valid_region(x));
                            assert(t0.valid_region(x));
                        }
                        t0.lemma_chain_step(x, p);
                        assert(t0.the_chain(x) == seq![p] + t0.the_chain(p));
                        if p == region_id {
                            assert(t0.the_chain(x)[0] == region_id);
                            assert(t0.the_chain(x).contains(region_id));
                        } else {
                            assert(t0.the_chain(p).contains(region_id));
                            let m = choose|m: int|
                                0 <= m < t0.the_chain(p).len() && t0.the_chain(p)[m] == region_id;
                            assert(t0.the_chain(x)[m + 1] == region_id);
                            assert(t0.the_chain(x).contains(region_id));
                        }
                    }
                    // pend0 elements survive untouched
                    assert forall|x: u32| pend0.contains(x) implies fin.valid_region(x)
                        && t0.desc_or_self(x, region_id) && fin.parent_of(x) is None && x != p
                        && !kids.contains(x) by {
                        let i = choose|i: int| 0 <= i < pend0.len() && pend0[i] == x;
                        assert(pfull[i] == x);
                        assert(cur.valid_region(x) && t0.desc_or_self(x, region_id)
                            && cur.parent_of(x) is None);
                        assert(x != p) by {
                            assert(pfull[pfull.len() - 1] == p);
                        }
                        assert(!kids.contains(x)) by {
                            if kids.contains(x) {
                                assert(cur.parent_of(x) == Some(p));
                            }
                        }
                        assert(t3.valid_region(x));
                        assert(fin.valid_region(x));
                        assert(t3.parent_of(x) == cur.parent_of(x));
                        assert(fin.rbox(x) == t3.rbox(x));
                    }
                    // re-establish each loop invariant for the new state
                    assert forall|x: u32| #[trigger] fin.valid_region(x) implies t1.valid_region(
                        x,
                    ) by {
                        assert(t3.valid_region(x));
                        assert(cur.valid_region(x));
                    }
                    assert forall|x: u32|
                        #[trigger] t1.valid_region(x) && !t0.desc_or_self(x, region_id) implies
                        fin.valid_region(x) by {
                        assert(cur.valid_region(x));
                        assert(x != p);
                        assert(t3.valid_region(x));
                    }
                    assert forall|x: u32| #[trigger] fin.valid_region(x) implies fin.rbox(
                        x,
                    ).region == t1.rbox(x).region by {
                        assert(t3.valid_region(x));
                        assert(cur.valid_region(x));
                        assert(t1.valid_region(x));
                        assert(fin.rbox(x) == t3.rbox(x));
                        assert(t3.rbox(x).region == cur.rbox(x).region);
                    }
                    assert forall|x: u32|
                        #[trigger] fin.valid_region(x) && !t0.desc_or_self(x, region_id) implies {
                            &&& fin.rbox(x).results == t1.rbox(x).results
                            &&& fin.children_of(x) == t1.children_of(x)
                            &&& fin.parent_of(x) == t1.parent_of(x)
                        } by {
                        assert(t3.valid_region(x));
                        assert(cur.valid_region(x));
                        assert(t1.valid_region(x));
                        assert(x != p);
                        assert(fin.rbox(x) == t3.rbox(x));
                        assert(t3.rbox(x).results == cur.rbox(x).results);
                        assert(t3.children_of(x) == cur.children_of(x));
                        assert(!kids.contains(x));
                        assert(t3.parent_of(x) == cur.parent_of(x));
                    }
                    assert forall|x: u32| #[trigger] fin.valid_region(x) implies (fin.parent_of(x)
                        == t1.parent_of(x) || fin.parent_of(x) is None) by {
                        assert(t3.valid_region(x));
                        assert(cur.valid_region(x));
                        assert(fin.rbox(x) == t3.rbox(x));
                        if kids.contains(x) {
                            assert(t3.parent_of(x) is None);
                        } else {
                            assert(t3.parent_of(x) == cur.parent_of(x));
                        }
                    }
                    assert forall|k2: int| 0 <= k2 < pnew.len() implies {
                        &&& fin.valid_region(#[trigger] pnew[k2])
                        &&& t0.desc_or_self(pnew[k2], region_id)
                        &&& fin.parent_of(pnew[k2]) is None
                    } by {
                        let x = pnew[k2];
                        if k2 < pend0.len() {
                            assert(pend0[k2] == x);
                            assert(pend0.contains(x));
                        } else {
                            assert(kids[k2 - pend0.len()] == x);
                            assert(kids.contains(x));
                            assert(x != p);
                            assert(t3.valid_region(x));
                            assert(fin.valid_region(x));
                            assert(t3.parent_of(x) is None);
                            assert(fin.rbox(x) == t3.rbox(x));
                        }
                    }
                    assert forall|i: int, j: int| 0 <= i < j < pnew.len() implies pnew[i]
                        != pnew[j] by {
                        if i < pend0.len() && j < pend0.len() {
                            assert(pfull[i] == pnew[i]);
                            assert(pfull[j] == pnew[j]);
                        } else if i < pend0.len() {
                            assert(pend0.contains(pnew[i]));
                            assert(kids[j - pend0.len()] == pnew[j]);
                            assert(kids.contains(pnew[j]));
                            assert(!kids.contains(pnew[i]));
                        } else {
                            assert(kids[i - pend0.len()] == pnew[i]);
                            assert(kids[j - pend0.len()] == pnew[j]);
                        }
                    }
                    assert forall|x: u32|
                        #[trigger] fin.valid_region(x) && t0.desc_or_self(x, region_id) implies (
                        pnew.contains(x) || (fin.parent_of(x) matches Some(y) && fin.valid_region(
                            y,
                        ) && t0.desc_or_self(y, region_id))) by {
                        assert(t3.valid_region(x));
                        assert(cur.valid_region(x));
                        assert(x != p);
                        assert(fin.rbox(x) == t3.rbox(x));
                        if kids.contains(x) {
                            let i = choose|i: int| 0 <= i < kids.len() && kids[i] == x;
                            assert(pnew[pend0.len() + i] == x);
                            assert(pnew.contains(x));
                        } else if pfull.contains(x) {
                            let i = choose|i: int| 0 <= i < pfull.len() && pfull[i] == x;
                            assert(i < pend0.len()) by {
                                if i == pfull.len() - 1 {
                                    assert(pfull[i] == p);
                                }
                            }
                            assert(pend0[i] == x);
                            assert(pnew[i] == x);
                            assert(pnew.contains(x));
                        } else {
                            assert(cur.parent_of(x) matches Some(y) && cur.valid_region(y)
                                && t0.desc_or_self(y, region_id));
                            let y = cur.parent_of(x)->0;
                            assert(y == p ==> cur.children_of(p).contains(x));
                            assert(y != p);
                            assert(t3.valid_region(y));
                            assert(fin.valid_region(y));
                            assert(t3.parent_of(x) == cur.parent_of(x));
                        }
                    }
    }

    // ----- lifecycle -----

    /// Create a region with a fresh id and empty tallies.
    pub fn add_region(&mut self, name: &str) -> (id: u32)
        requires
            old(self).wf(),
            old(self).regions@.len() < u32::MAX,
        ensures
            final(self).wf(),
            id == old(self).regions@.len(),
            final(self).regions@.len() == old(self).regions@.len() + 1,
            final(self).valid_region(id),
            final(self).rbox(id).region.name@ == name@,
            final(self).parent_of(id) is None,
            final(self).children_of(id).len() == 0,
            forall|c: u32| final(self).entry_of(id, c) is None,
            final(self).results_of(id).entries@.len() == 0,
            forall|r: u32| old(self).valid_region(r) ==> final(self).valid_region(r),
            forall|r: u32|
                #[trigger] old(self).valid_region(r) ==> final(self).rbox(r) == old(self).rbox(r),
            forall|r: u32| final(self).valid_region(r) <==> (old(self).valid_region(r) || r == id),
            final(self).candidacies@ == old(self).candidacies@,
            final(self).root == old(self).root,
    {
        let ghost orig = *self;
        let id = self.regions.len() as u32;
        self.regions.push(Some(RegionBox::new(name)));
        proof {
            assert forall|r: u32| #[trigger] orig.valid_region(r) implies self.rbox(r)
                == orig.rbox(r) by {
                assert(self.regions@[r as int] == orig.regions@[r as int]);
            }
            assert forall|r: u32| #[trigger] self.valid_region(r) implies {
                &&& (self.parent_of(r) matches Some(p) ==> self.valid_region(p))
                &&& self.results_of(r).wf()
                &&& self.has_chain(r)
            } by {
                if r == id {
                    assert(self.parent_of(id) is None);
                    assert(self.chain_ok(id, Seq::<u32>::empty()));
                } else {
                    assert(orig.valid_region(r));
                    orig.lemma_the_chain(r);
                    let s = orig.the_chain(r);
                    assert(forall|i: int| 0 <= i < s.len() ==> self.valid_region(#[trigger] s[i]));
                    assert(self.chain_ok(r, s));
                }
            }
            assert(self.wf_core());
            assert forall|r: u32| #[trigger] self.valid_region(r) implies {
                &&& (forall|i: int|
                    0 <= i < self.children_of(r).len() ==> {
                        &&& self.valid_region(#[trigger] self.children_of(r)[i])
                        &&& self.parent_of(self.children_of(r)[i]) == Some(r)
                    })
                &&& (forall|i: int, j: int|
                    0 <= i < j < self.children_of(r).len()
                        ==> self.children_of(r)[i] != self.children_of(r)[j])
            } by {
                if r != id {
                    assert(orig.valid_region(r));
                    assert(self.children_of(r) == orig.children_of(r));
                    assert forall|i: int| 0 <= i < self.children_of(r).len() implies {
                        &&& self.valid_region(#[trigger] self.children_of(r)[i])
                        &&& self.parent_of(self.children_of(r)[i]) == Some(r)
                    } by {
                        assert(orig.valid_region(orig.children_of(r)[i]));
                        assert(orig.parent_of(orig.children_of(r)[i]) == Some(r));
                    }
                }
            }
            assert forall|x: u32, p: u32|
                self.valid_region(x) && #[trigger] self.parent_of(x) == Some(p)
                    && self.valid_region(p) implies #[trigger] self.children_of(p).contains(x) by {
                if x != id {
                    assert(orig.valid_region(x));
                    assert(orig.valid_region(p));
                    assert(orig.children_of(p).contains(x));
                    assert(self.children_of(p) == orig.children_of(p));
                }
            }
            assert(self.children_wf());
        }
        id
    }

    /// Create a candidacy with a fresh id.
    pub fn add_candidacy(&mut self, name: &str) -> (id: u32)
        requires
            old(self).wf(),
            old(self).candidacies@.len() < u32::MAX,
        ensures
            final(self).wf(),
            id == old(self).candidacies@.len(),
            final(self).candidacies@.len() == old(self).candidacies@.len() + 1,
            final(self).valid_candidacy(id),
            final(self).candidacies@[id as int]->0.name@ == name@,
            forall|c: u32|
                #[trigger] old(self).valid_candidacy(c) ==> final(self).valid_candidacy(c)
                    && final(self).candidacies@[c as int] == old(self).candidacies@[c as int],
            forall|c: u32|
                final(self).valid_candidacy(c) <==> (old(self).valid_candidacy(c) || c == id),
            final(self).regions@ == old(self).regions@,
            final(self).root == old(self).root,
    {
        let ghost orig = *self;
        let id = self.candidacies.len() as u32;
        self.candidacies.push(Some(Candidacy::new(name)));
        proof {
            assert forall|r: u32| #[trigger] self.valid_region(r) implies {
                &&& (self.parent_of(r) matches Some(p) ==> self.valid_region(p))
                &&& self.results_of(r).wf()
                &&& self.has_chain(r)
            } by {
                assert(orig.valid_region(r));
                orig.lemma_the_chain(r);
                let s = orig.the_chain(r);
                assert(forall|i: int| 0 <= i < s.len() ==> self.valid_region(#[trigger] s[i]));
                assert(self.chain_ok(r, s));
            }
            assert forall|r: u32| #[trigger] self.valid_region(r) implies {
                &&& (forall|i: int|
                    0 <= i < self.children_of(r).len() ==> {
                        &&& self.valid_region(#[trigger] self.children_of(r)[i])
                        &&& self.parent_of(self.children_of(r)[i]) == Some(r)
                    })
                &&& (forall|i: int, j: int|
                    0 <= i < j < self.children_of(r).len()
                        ==> self.children_of(r)[i] != self.children_of(r)[j])
            } by {
                assert(orig.valid_region(r));
                assert(self.children_of(r) == orig.children_of(r));
                assert forall|i: int| 0 <= i < self.children_of(r).len() implies {
                    &&& self.valid_region(#[trigger] self.children_of(r)[i])
                    &&& self.parent_of(self.children_of(r)[i]) == Some(r)
                } by {
                    assert(orig.valid_region(orig.children_of(r)[i]));
                    assert(orig.parent_of(orig.children_of(r)[i]) == Some(r));
                }
            }
            assert forall|x: u32, p: u32|
                self.valid_region(x) && #[trigger] self.parent_of(x) == Some(p)
                    && self.valid_region(p) implies #[trigger] self.children_of(p).contains(x) by {
                assert(orig.valid_region(x));
                assert(orig.valid_region(p));
                assert(orig.parent_of(x) == Some(p));
                assert(orig.children_of(p).contains(x));
                assert(self.children_of(p) == orig.children_of(p));
            }
            assert(self.children_wf());
        }
        id
    }

    // ----- tally mutation, always propagated upward -----

    /// Apply a signed vote delta to a region, every ancestor, and the
    /// global root. Each count saturates at zero and at `u32::MAX`.
    pub fn increase_votes(&mut self, region_id: u32, candidacy_id: u32, votes: i32) -> (r: Result<
        (),
        ErrorTree,
    >)
        requires
            old(self).wf(),
        ensures
            final(self).wf(),
            match r {
                Ok(_) => old(self).valid_candidacy(candidacy_id) && old(self).valid_region(
                    region_id,
                ) && Self::delta_applied(
                    *old(self),
                    *final(self),
                    region_id,
                    candidacy_id,
                    votes as int,
                    0,
                ),
                Err(e) => *final(self) == *old(self) && match e {
                    ErrorTree::CandidacyNotFound => !old(self).valid_candidacy(candidacy_id),
                    ErrorTree::RegionNotFound => old(self).valid_candidacy(candidacy_id) && !old(self).valid_region(region_id),
                    _ => false,
                },
            },
    {
        if !self.has_candidacy(candidacy_id) {
            return Err(ErrorTree::CandidacyNotFound);
        }
        if !self.has_region(region_id) {
            return Err(ErrorTree::RegionNotFound);
        }
        self.apply_delta(region_id, candidacy_id, votes as i64, 0);
        Ok(())
    }

    /// Apply a signed seat delta to a region, every ancestor, and the
    /// global root. Each count saturates at zero and at `u32::MAX`.
    pub fn increase_seats(&mut self, region_id: u32, candidacy_id: u32, seats: i8) -> (r: Result<
        (),
        ErrorTree,
    >)
        requires
            old(self).wf(),
        ensures
            final(self).wf(),
            match r {
                Ok(_) => old(self).valid_candidacy(candidacy_id) && old(self).valid_region(
                    region_id,
                ) && Self::delta_applied(
                    *old(self),
                    *final(self),
                    region_id,
                    candidacy_id,
                    0,
                    seats as int,
                ),
                Err(e) => *final(self) == *old(self) && match e {
                    ErrorTree::CandidacyNotFound => !old(self).valid_candidacy(candidacy_id),
                    ErrorTree::RegionNotFound => old(self).valid_candidacy(candidacy_id) && !old(self).valid_region(region_id),
                    _ => false,
                },
            },
    {
        if !self.has_candidacy(candidacy_id) {
            return Err(ErrorTree::CandidacyNotFound);
        }
        if !self.has_region(region_id) {
            return Err(ErrorTree::RegionNotFound);
        }
        self.apply_delta(region_id, candidacy_id, 0, seats as i64);
        Ok(())
    }

    /// Set a region's vote tally to an absolute value: the signed
    /// difference from the current value is propagated upward.
    pub fn set_votes(&mut self, region_id: u32, candidacy_id: u32, votes: u32) -> (r: Result<
        (),
        ErrorTree,
    >)
        requires
            old(self).wf(),
        ensures
            final(self).wf(),
            match r {
                Ok(_) => old(self).valid_region(region_id) && old(self).valid_candidacy(
                    candidacy_id,
                ) && Self::delta_applied(
                    *old(self),
                    *final(self),
                    region_id,
                    candidacy_id,
                    votes - old(self).votes_of(region_id, candidacy_id),
                    0,
                ) && final(self).votes_of(region_id, candidacy_id) == votes,
                Err(e) => *final(self) == *old(self) && match e {
                    ErrorTree::RegionNotFound => !old(self).valid_region(region_id),
                    ErrorTree::CandidacyNotFound => old(self).valid_region(region_id) && !old(self).valid_candidacy(candidacy_id),
                    _ => false,
                },
            },
    {
        if !self.has_region(region_id) {
            return Err(ErrorTree::RegionNotFound);
        }
        if !self.has_candidacy(candidacy_id) {
            return Err(ErrorTree::CandidacyNotFound);
        }
        let current: u32 = match &self.regions[region_id as usize] {
            Some(b) => {
                match b.results.get_votes(candidacy_id) {
                    Some(v) => v,
                    None => 0,
                }
            },
            None => 0,
        };
        let d: i64 = votes as i64 - current as i64;
        self.apply_delta(region_id, candidacy_id, d, 0);
        Ok(())
    }

    /// Set a region's seat tally to an absolute value: the signed
    /// difference from the current value is propagated upward.
    pub fn set_seats(&mut self, region_id: u32, candidacy_id: u32, seats: u32) -> (r: Result<
        (),
        ErrorTree,
    >)
        requires
            old(self).wf(),
        ensures
            final(self).wf(),
            match r {
                Ok(_) => old(self).valid_region(region_id) && old(self).valid_candidacy(
                    candidacy_id,
                ) && Self::delta_applied(
                    *old(self),
                    *final(self),
                    region_id,
                    candidacy_id,
                    0,
                    seats - old(self).seats_of(region_id, candidacy_id),
                ) && final(self).seats_of(region_id, candidacy_id) == seats,
                Err(e) => *final(self) == *old(self) && match e {
                    ErrorTree::RegionNotFound => !old(self).valid_region(region_id),
                    ErrorTree::CandidacyNotFound => old(self).valid_region(region_id) && !old(self).valid_candidacy(candidacy_id),
                    _ => false,
                },
            },
    {
        if !self.has_region(region_id) {
            return Err(ErrorTree::RegionNotFound);
        }
        if !self.has_candidacy(candidacy_id) {
            return Err(ErrorTree::CandidacyNotFound);
        }
        let current: u32 = match &self.regions[region_id as usize] {
            Some(b) => {
                match b.results.get_seats(candidacy_id) {
                    Some(v) => v,
                    None => 0,
                }
            },
            None => 0,
        };
        let d: i64 = seats as i64 - current as i64;
        self.apply_delta(region_id, candidacy_id, 0, d);
        Ok(())
    }

    // ----- global (root) accessors -----

    /// Apply a signed vote delta to the global root alone.
    pub fn global_increase_votes(&mut self, candidacy_id: u32, votes: i32)
        requires
            old(self).wf(),
        ensures
            final(self).wf(),
            table_updated(
                old(self).root.results,
                final(self).root.results,
                candidacy_id,
                votes as int,
                0,
            ),
            final(self).regions@ == old(self).regions@,
            final(self).candidacies@ == old(self).candidacies@,
            final(self).root.region == old(self).root.region,
            final(self).root.parent == old(self).root.parent,
            final(self).root.children == old(self).root.children,
    {
        let ghost orig = *self;
        self.root.results.apply(candidacy_id, votes as i64, 0);
        proof {
            Self::lemma_wf_same_regions(orig, *self);
        }
    }

    /// Apply a signed seat delta to the global root alone.
    pub fn global_increase_seats(&mut self, candidacy_id: u32, seats: i8)
        requires
            old(self).wf(),
        ensures
            final(self).wf(),
            table_updated(
                old(self).root.results,
                final(self).root.results,
                candidacy_id,
                0,
                seats as int,
            ),
            final(self).regions@ == old(self).regions@,
            final(self).candidacies@ == old(self).candidacies@,
            final(self).root.region == old(self).root.region,
            final(self).root.parent == old(self).root.parent,
            final(self).root.children == old(self).root.children,
    {
        let ghost orig = *self;
        self.root.results.apply(candidacy_id, 0, seats as i64);
        proof {
            Self::lemma_wf_same_regions(orig, *self);
        }
    }

    /// The global root's vote tally for a candidacy; zero when absent.
    pub fn global_get_votes(&self, candidacy_id: u32) -> (r: u32)
        ensures
            r == self.root_votes(candidacy_id),
    {
        match self.root.results.get_votes(candidacy_id) {
            Some(v) => v,
            None => 0,
        }
    }

    /// The global root's seat tally for a candidacy; zero when absent.
    pub fn global_get_seats(&self, candidacy_id: u32) -> (r: u32)
        ensures
            r == self.root_seats(candidacy_id),
    {
        match self.root.results.get_seats(candidacy_id) {
            Some(v) => v,
            None => 0,
        }
    }

    /// The global root's whole tally table.
    pub fn get_global_results(&self) -> (r: &RegionResults)
        ensures
            *r == self.root.results,
    {
        &self.root.results
    }

    /// Set the global root's vote tally outright.
    pub fn global_set_votes(&mut self, candidacy_id: u32, votes: u32)
        requires
            old(self).wf(),
        ensures
            final(self).wf(),
            table_updated(
                old(self).root.results,
                final(self).root.results,
                candidacy_id,
                votes - old(self).root_votes(candidacy_id),
                0,
            ),
            final(self).root_votes(candidacy_id) == votes,
            final(self).regions@ == old(self).regions@,
            final(self).candidacies@ == old(self).candidacies@,
            final(self).root.region == old(self).root.region,
            final(self).root.parent == old(self).root.parent,
            final(self).root.children == old(self).root.children,
    {
        let ghost orig = *self;
        let current: u32 = match self.root.results.get_votes(candidacy_id) {
            Some(v) => v,
            None => 0,
        };
        let d: i64 = votes as i64 - current as i64;
        self.root.results.apply(candidacy_id, d, 0);
        proof {
            Self::lemma_wf_same_regions(orig, *self);
        }
    }

    /// Set the global root's seat tally outright.
    pub fn global_set_seats(&mut self, candidacy_id: u32, seats: u32)
        requires
            old(self).wf(),
        ensures
            final(self).wf(),
            table_updated(
                old(self).root.results,
                final(self).root.results,
                candidacy_id,
                0,
                seats - old(self).root_seats(candidacy_id),
            ),
            final(self).root_seats(candidacy_id) == seats,
            final(self).regions@ == old(self).regions@,
            final(self).candidacies@ == old(self).candidacies@,
            final(self).root.region == old(self).root.region,
            final(self).root.parent == old(self).root.parent,
            final(self).root.children == old(self).root.children,
    {
        let ghost orig = *self;
        let current: u32 = match self.root.results.get_seats(candidacy_id) {
            Some(v) => v,
            None => 0,
        };
        let d: i64 = seats as i64 - current as i64;
        self.root.results.apply(candidacy_id, 0, d);
        proof {
            Self::lemma_wf_same_regions(orig, *self);
        }
    }

    // ----- detaching a region from its parent -----

    /// One child list after one id was struck out: the id is gone, every
    /// other member is kept, and uniqueness is preserved.
    pub open spec fn child_removed(pre: Seq<u32>, post: Seq<u32>, r: u32) -> bool {
        &&& (forall|k: int| 0 <= k < post.len() ==> post[k] != r)
        &&& (forall|x: u32| x != r ==> (post.contains(x) <==> pre.contains(x)))
        &&& ((forall|i: int, j: int| 0 <= i < j < pre.len() ==> pre[i] != pre[j]) ==> (forall|
            i: int,
            j: int,
        |
            0 <= i < j < post.len() ==> post[i] != post[j]))
    }

    /// The whole effect of detaching region `r` from its parent: the
    /// parent link is cleared, the old parent's child list loses `r`,
    /// `r`'s own tallies were subtracted from every old ancestor, and the
    /// global root is left with its original totals.
    pub open spec fn unparent_applied(pre: ElectionTree, post: ElectionTree, r: u32) -> bool {
        let p = pre.parent_of(r)->0;
        let snap = pre.results_of(r).entries@;
        &&& post.regions@.len() == pre.regions@.len()
        &&& post.candidacies@ == pre.candidacies@
        &&& (forall|x: u32| pre.valid_region(x) <==> #[trigger] post.valid_region(x))
        &&& post.parent_of(r) is None
        &&& (forall|x: u32|
            #[trigger] pre.valid_region(x) && x != r ==> post.parent_of(x) == pre.parent_of(x))
        &&& (forall|x: u32|
            #[trigger] pre.valid_region(x) ==> post.rbox(x).region == pre.rbox(x).region)
        &&& (forall|x: u32|
            #[trigger] pre.valid_region(x) && x != p ==> post.children_of(x) == pre.children_of(
                x,
            ))
        &&& Self::child_removed(pre.children_of(p), post.children_of(p), r)
        &&& post.root.region == pre.root.region
        &&& (forall|x: u32|
            #[trigger] pre.valid_region(x) ==> if pre.the_chain(r).contains(x) {
                Self::table_snap_applied(pre.results_of(x), post.results_of(x), snap, -1)
            } else {
                post.rbox(x).results == pre.rbox(x).results
            })
        &&& (forall|c: u32|
            #[trigger] post.root_entry(c) == if idx_of(snap, c) >= 0 {
                Some(
                    tally_apply(
                        Some(
                            tally_apply(
                                pre.root_entry(c),
                                -1 * snap[idx_of(snap, c)].1.votes,
                                -1 * snap[idx_of(snap, c)].1.seats,
                            ),
                        ),
                        snap[idx_of(snap, c)].1.votes as int,
                        snap[idx_of(snap, c)].1.seats as int,
                    ),
                )
            } else {
                pre.root_entry(c)
            })
    }

    /// Detach a region from its parent. Its own tallies are subtracted
    /// from the old ancestor chain, and the global root is re-credited:
    /// the region now contributes to the root as a top-level region.
    pub fn unparent(&mut self, region_id: u32) -> (r: Result<(), ErrorTree>)
        requires
            old(self).wf(),
            old(self).valid_region(region_id) ==> old(self).parent_of(region_id) is Some,
        ensures
            final(self).wf(),
            match r {
                Ok(_) => old(self).valid_region(region_id) && Self::unparent_applied(
                    *old(self),
                    *final(self),
                    region_id,
                ),
                Err(e) => *final(self) == *old(self) && !old(self).valid_region(region_id) && e
                    == ErrorTree::RegionNotFound,
            },
    {
        let ghost t0 = *old(self);
        if !self.has_region(region_id) {
            return Err(ErrorTree::RegionNotFound);
        }
        let p: u32 = match self.parent_raw(region_id) {
            Some(p) => p,
            None => {
                proof {
                    assert(false);
                }
                0
            },
        };
        let snap: Vec<(u32, SingleResult)> = match &self.regions[region_id as usize] {
            Some(b) => b.results.iter_results(),
            None => Vec::new(),
        };
        proof {
            assert(t0.valid_region(p));
            assert(snap@ == t0.results_of(region_id).entries@);
            assert(t0.results_of(region_id).wf());
        }
        self.apply_snapshot(p, &snap, true);
        let ghost t1 = *self;
        self.apply_snapshot_root(&snap, false);
        let ghost t2 = *self;
        proof {
            assert(Self::same_structure(t0, t1));
            assert(t2.regions@ == t1.regions@);
            assert(t1.valid_region(region_id));
            assert(t2.valid_region(region_id));
            assert(t1.valid_region(p));
            assert(t2.valid_region(p));
        }
        match &mut self.regions[region_id as usize] {
            Some(b) => b.parent = None,
            None => {},
        }
        let ghost t3 = *self;
        proof {
            assert(t3.regions@ == t2.regions@.update(region_id as int, t3.regions@[region_id as int]));
            assert forall|x: u32| t2.valid_region(x) <==> #[trigger] t3.valid_region(x) by {}
            assert forall|x: u32|
                #[trigger] t2.valid_region(x) && x != region_id implies t3.parent_of(x)
                == t2.parent_of(x) by {
                assert(t3.rbox(x) == t2.rbox(x));
            }
            Self::lemma_unlink(t2, t3, region_id);
            assert forall|r2: u32| #[trigger] t3.valid_region(r2) implies {
                &&& (t3.parent_of(r2) matches Some(q) ==> t3.valid_region(q))
                &&& t3.results_of(r2).wf()
                &&& t3.has_chain(r2)
            } by {
                assert(t2.valid_region(r2));
                if r2 != region_id {
                    assert(t3.parent_of(r2) == t2.parent_of(r2));
                    assert(t3.results_of(r2) == t2.results_of(r2));
                } else {
                    assert(t3.results_of(r2) == t2.results_of(r2));
                }
            }
            assert(t3.wf_core());
        }
        let newch: Vec<u32> = match &self.regions[p as usize] {
            Some(b) => filter_out(&b.children, region_id),
            None => Vec::new(),
        };
        match &mut self.regions[p as usize] {
            Some(b) => b.children = newch,
            None => {},
        }
        let ghost t4 = *self;
        proof {
            assert(t4.regions@ == t3.regions@.update(p as int, t4.regions@[p as int]));
            assert forall|x: u32| t3.valid_region(x) <==> #[trigger] t4.valid_region(x) by {}
            assert forall|x: u32|
                #[trigger] t3.valid_region(x) && x != p implies t4.rbox(x) == t3.rbox(x) by {}
            assert(t4.parent_of(p) == t3.parent_of(p));
            assert(t4.results_of(p) == t3.results_of(p));
            Self::lemma_chain_frame(t3, t4);
            assert forall|r2: u32| #[trigger] t4.valid_region(r2) implies {
                &&& (t4.parent_of(r2) matches Some(q) ==> t4.valid_region(q))
                &&& t4.results_of(r2).wf()
                &&& t4.has_chain(r2)
            } by {
                assert(t3.valid_region(r2));
            }
            assert(t4.wf_core());
            // parent/child duality in the final state
            assert(Self::child_removed(t0.children_of(p), t4.children_of(p), region_id));
            assert forall|r2: u32| #[trigger] t4.valid_region(r2) implies {
                &&& (forall|i: int|
                    0 <= i < t4.children_of(r2).len() ==> {
                        &&& t4.valid_region(#[trigger] t4.children_of(r2)[i])
                        &&& t4.parent_of(t4.children_of(r2)[i]) == Some(r2)
                    })
                &&& (forall|i: int, j: int|
                    0 <= i < j < t4.children_of(r2).len()
                        ==> t4.children_of(r2)[i] != t4.children_of(r2)[j])
            } by {
                assert(t3.valid_region(r2));
                assert(t2.valid_region(r2));
                assert(t1.valid_region(r2));
                assert(t0.valid_region(r2));
                if r2 == p {
                    assert forall|i: int| 0 <= i < t4.children_of(p).len() implies {
                        &&& t4.valid_region(#[trigger] t4.children_of(p)[i])
                        &&& t4.parent_of(t4.children_of(p)[i]) == Some(p)
                    } by {
                        let x = t4.children_of(p)[i];
                        assert(x != region_id);
                        assert(t4.children_of(p).contains(x));
                        assert(t0.children_of(p).contains(x));
                        let j = choose|j: int|
                            0 <= j < t0.children_of(p).len() && t0.children_of(p)[j] == x;
                        assert(t0.valid_region(x));
                        assert(t0.parent_of(x) == Some(p));
                    }
                } else {
                    assert(t4.children_of(r2) == t0.children_of(r2));
                    assert forall|i: int| 0 <= i < t4.children_of(r2).len() implies {
                        &&& t4.valid_region(#[trigger] t4.children_of(r2)[i])
                        &&& t4.parent_of(t4.children_of(r2)[i]) == Some(r2)
                    } by {
                        let x = t0.children_of(r2)[i];
                        assert(t0.valid_region(x));
                        assert(t0.parent_of(x) == Some(r2));
                        // the detached region was a child only of its parent
                        assert(x != region_id);
                    }
                }
            }
            assert forall|x: u32, q: u32|
                t4.valid_region(x) && #[trigger] t4.parent_of(x) == Some(q) && t4.valid_region(
                q,
            ) implies #[trigger] t4.children_of(q).contains(x) by {
                assert(t3.valid_region(x));
                assert(t2.valid_region(x));
                assert(t1.valid_region(x));
                assert(t0.valid_region(x));
                assert(t3.valid_region(q));
                assert(t2.valid_region(q));
                assert(t1.valid_region(q));
                assert(x != region_id);
                assert(t0.parent_of(x) == Some(q));
                assert(t0.valid_region(q));
                assert(t0.children_of(q).contains(x));
                if q == p {
                    assert(t4.children_of(p).contains(x));
                } else {
                    assert(t4.children_of(q) == t0.children_of(q));
                }
            }
            assert(t4.children_wf());
            // translate the chain condition: the old ancestors of the
            // region are its parent and the parent's ancestors
            t0.lemma_chain_step(region_id, p);
            assert forall|x: u32| #[trigger] t0.valid_region(x) implies if t0.the_chain(
                region_id,
            ).contains(x) {
                Self::table_snap_applied(t0.results_of(x), t4.results_of(x), snap@, -1)
            } else {
                t4.rbox(x).results == t0.rbox(x).results
            } by {
                let cr = t0.the_chain(region_id);
                let cp = t0.the_chain(p);
                assert(cr == seq![p] + cp);
                assert(t0.on_chain(p, x) <==> cr.contains(x)) by {
                    if x == p {
                        assert(cr[0] == p);
                    }
                    if cp.contains(x) {
                        let k = choose|k: int| 0 <= k < cp.len() && cp[k] == x;
                        assert(cr[k + 1] == x);
                    }
                    if cr.contains(x) {
                        let k = choose|k: int| 0 <= k < cr.len() && cr[k] == x;
                        if k > 0 {
                            assert(cp[k - 1] == x);
                        }
                    }
                }
                if t0.on_chain(p, x) {
                    assert(Self::table_snap_applied(
                        t0.results_of(x),
                        t1.results_of(x),
                        snap@,
                        -1,
                    ));
                    assert(t1.valid_region(x));
                    assert(t2.results_of(x) == t1.results_of(x));
                    assert(t4.results_of(x) == t1.results_of(x));
                } else {
                    assert(t1.rbox(x).results == t0.rbox(x).results);
                    assert(t1.valid_region(x));
                    assert(t2.rbox(x).results == t1.rbox(x).results);
                    assert(t4.rbox(x).results == t1.rbox(x).results);
                }
            }
            // the root: subtracted, then re-credited
            assert forall|c: u32| true implies #[trigger] t4.root_entry(c) == (if idx_of(
                snap@,
                c,
            ) >= 0 {
                Some(
                    tally_apply(
                        Some(
                            tally_apply(
                                t0.root_entry(c),
                                -1 * snap@[idx_of(snap@, c)].1.votes,
                                -1 * snap@[idx_of(snap@, c)].1.seats,
                            ),
                        ),
                        snap@[idx_of(snap@, c)].1.votes as int,
                        snap@[idx_of(snap@, c)].1.seats as int,
                    ),
                )
            } else {
                t0.root_entry(c)
            }) by {
                assert(t1.root.results.spec_get(c) == if idx_of(snap@, c) >= 0 {
                    Some(tally_apply(
                        t0.root.results.spec_get(c),
                        -1 * snap@[idx_of(snap@, c)].1.votes,
                        -1 * snap@[idx_of(snap@, c)].1.seats,
                    ))
                } else {
                    t0.root.results.spec_get(c)
                });
                assert(t2.root.results.spec_get(c) == if idx_of(snap@, c) >= 0 {
                    Some(tally_apply(
                        t1.root.results.spec_get(c),
                        1 * snap@[idx_of(snap@, c)].1.votes,
                        1 * snap@[idx_of(snap@, c)].1.seats,
                    ))
                } else {
                    t1.root.results.spec_get(c)
                });
                assert(t4.root.results == t2.root.results);
            }
            assert(t4.regions@.len() == t0.regions@.len());
            assert(t4.candidacies@ == t0.candidacies@);
            assert forall|x: u32| t0.valid_region(x) <==> #[trigger] t4.valid_region(x) by {
                assert(t0.valid_region(x) <==> t1.valid_region(x));
                assert(t1.valid_region(x) <==> t2.valid_region(x));
                assert(t2.valid_region(x) <==> t3.valid_region(x));
            }
            assert forall|x: u32|
                #[trigger] t0.valid_region(x) && x != region_id implies t4.parent_of(x)
                == t0.parent_of(x) by {
                assert(t1.valid_region(x));
                assert(t2.valid_region(x));
                assert(t3.valid_region(x));
                assert(t1.parent_of(x) == t0.parent_of(x));
                assert(t3.parent_of(x) == t2.parent_of(x));
                if x != p {
                    assert(t4.rbox(x) == t3.rbox(x));
                } else {
                    assert(t4.parent_of(p) == t3.parent_of(p));
                }
            }
            assert forall|x: u32| #[trigger] t0.valid_region(x) implies t4.rbox(x).region
                == t0.rbox(x).region by {
                assert(t1.valid_region(x));
                assert(t2.valid_region(x));
                assert(t3.valid_region(x));
                assert(t1.rbox(x).region == t0.rbox(x).region);
            }
            assert forall|x: u32|
                #[trigger] t0.valid_region(x) && x != p implies t4.children_of(x)
                == t0.children_of(x) by {
                assert(t1.valid_region(x));
                assert(t2.valid_region(x));
                assert(t3.valid_region(x));
                assert(t1.children_of(x) == t0.children_of(x));
                assert(t4.rbox(x) == t3.rbox(x));
            }
            assert(Self::unparent_applied(t0, t4, region_id));
        }
        Ok(())
    }

    // ----- re-parenting -----

    /// A table entry after a snapshot tally was first subtracted (when the
    /// table lay on the old ancestor chain) and then added back (when it
    /// lies on the new one).
    pub open spec fn moved_get(
        pre: Option<SingleResult>,
        snap: Seq<(u32, SingleResult)>,
        c: u32,
        in_old: bool,
        in_new: bool,
    ) -> Option<SingleResult> {
        if idx_of(snap, c) >= 0 {
            let v = snap[idx_of(snap, c)].1.votes;
            let s = snap[idx_of(snap, c)].1.seats;
            let m = if in_old {
                Some(tally_apply(pre, -1 * v, -1 * s))
            } else {
                pre
            };
            if in_new {
                Some(tally_apply(m, v as int, s as int))
            } else {
                m
            }
        } else {
            pre
        }
    }

    /// The whole effect of re-parenting region `r` under `q`: the moved
    /// region's own tallies leave every old ancestor, enter every new
    /// one, and pass through the global root on both paths.
    pub open spec fn set_parent_applied(
        pre: ElectionTree,
        post: ElectionTree,
        r: u32,
        q: u32,
    ) -> bool {
        let snap = pre.results_of(r).entries@;
        let had_parent = pre.parent_of(r) is Some;
        let p = pre.parent_of(r)->0;
        &&& post.regions@.len() == pre.regions@.len()
        &&& post.candidacies@ == pre.candidacies@
        &&& (forall|x: u32| pre.valid_region(x) <==> #[trigger] post.valid_region(x))
        &&& post.parent_of(r) == Some(q)
        &&& (forall|x: u32|
            #[trigger] pre.valid_region(x) && x != r ==> post.parent_of(x) == pre.parent_of(x))
        &&& (forall|x: u32|
            #[trigger] pre.valid_region(x) ==> post.rbox(x).region == pre.rbox(x).region)
        &&& (forall|x: u32|
            #[trigger] pre.valid_region(x) && x != q && !(had_parent && x == p)
                ==> post.children_of(x) == pre.children_of(x))
        &&& (had_parent && p != q ==> Self::child_removed(
            pre.children_of(p),
            post.children_of(p),
            r,
        ) && post.children_of(q) == pre.children_of(q).push(r))
        &&& (had_parent && p == q ==> post.children_of(q).len() >= 1 && post.children_of(
            q,
        ).last() == r && Self::child_removed(
            pre.children_of(q),
            post.children_of(q).drop_last(),
            r,
        ))
        &&& (!had_parent ==> post.children_of(q) == pre.children_of(q).push(r))
        &&& post.root.region == pre.root.region
        &&& post.results_of(r) == pre.results_of(r)
        &&& (forall|x: u32|
            #[trigger] pre.valid_region(x) && x != r ==> {
                &&& post.results_of(x).wf()
                &&& (forall|c: u32|
                    #[trigger] post.results_of(x).spec_get(c) == Self::moved_get(
                        pre.results_of(x).spec_get(c),
                        snap,
                        c,
                        pre.the_chain(r).contains(x),
                        x == q || pre.the_chain(q).contains(x),
                    ))
            })
        &&& (forall|c: u32|
            #[trigger] post.root_entry(c) == Self::moved_get(pre.root_entry(c), snap, c, true, true))
    }

    /// The first half of a re-parent: the region's tallies were subtracted
    /// from its old ancestors (or from the global root alone, for a
    /// top-level region), and the old parent's child list lost the region.
    pub open spec fn detach_phase(
        pre: ElectionTree,
        post: ElectionTree,
        r: u32,
        cp: Option<u32>,
        snap: Seq<(u32, SingleResult)>,
    ) -> bool {
        match cp {
            Some(p) => {
                &&& post.regions@.len() == pre.regions@.len()
                &&& post.candidacies@ == pre.candidacies@
                &&& (forall|x: u32| pre.valid_region(x) <==> #[trigger] post.valid_region(x))
                &&& (forall|x: u32|
                    #[trigger] pre.valid_region(x) ==> post.parent_of(x) == pre.parent_of(x))
                &&& (forall|x: u32|
                    #[trigger] pre.valid_region(x) ==> post.rbox(x).region == pre.rbox(x).region)
                &&& (forall|x: u32|
                    #[trigger] pre.valid_region(x) && x != p ==> post.children_of(x)
                        == pre.children_of(x))
                &&& Self::child_removed(pre.children_of(p), post.children_of(p), r)
                &&& post.root.region == pre.root.region
                &&& (forall|x: u32|
                    #[trigger] pre.valid_region(x) ==> if pre.on_chain(p, x) {
                        Self::table_snap_applied(pre.results_of(x), post.results_of(x), snap, -1)
                    } else {
                        post.rbox(x).results == pre.rbox(x).results
                    })
                &&& Self::table_snap_applied(pre.root.results, post.root.results, snap, -1)
            },
            None => {
                &&& post.regions@ == pre.regions@
                &&& post.candidacies@ == pre.candidacies@
                &&& post.root.region == pre.root.region
                &&& Self::table_snap_applied(pre.root.results, post.root.results, snap, -1)
            },
        }
    }

    /// Move a region under a new parent. Rejected when it would create a
    /// cycle; otherwise the region's own tallies are subtracted from the
    /// old ancestor chain and added along the new one, so every rollup is
    /// preserved and the global root's totals are unchanged.
    #[verifier::rlimit(100)]
    pub fn set_parent(&mut self, region_id: u32, parent_id: u32) -> (r: Result<(), ErrorTree>)
        requires
            old(self).wf(),
        ensures
            final(self).wf(),
            match r {
                Ok(_) => old(self).valid_region(region_id) && old(self).valid_region(parent_id)
                    && region_id != parent_id && !old(self).the_chain(parent_id).contains(region_id)
                    && Self::set_parent_applied(*old(self), *final(self), region_id, parent_id),
                Err(e) => *final(self) == *old(self) && match e {
                    ErrorTree::RegionNotFound => !old(self).valid_region(region_id) || !old(self).valid_region(parent_id),
                    ErrorTree::NotParentable(_) => old(self).valid_region(region_id) && old(self).valid_region(parent_id) && (region_id == parent_id || old(self).the_chain(
                        parent_id,
                    ).contains(region_id)),
                    _ => false,
                },
            },
    {
        let ghost t0 = *old(self);
        if !self.has_region(parent_id) || !self.has_region(region_id) {
            return Err(ErrorTree::RegionNotFound);
        }
        let ancs: Vec<u32> = match self.ancestors(parent_id) {
            Ok(v) => v,
            Err(_) => Vec::new(),
        };
        if region_id == parent_id || vec_contains(&ancs, region_id) {
            return Err(ErrorTree::NotParentable("Region is already an ancestor".to_string()));
        }
        let current_parent = self.parent_raw(region_id);
        let snap: Vec<(u32, SingleResult)> = match &self.regions[region_id as usize] {
            Some(b) => b.results.iter_results(),
            None => Vec::new(),
        };
        proof {
            assert(snap@ == t0.results_of(region_id).entries@);
            assert(t0.results_of(region_id).wf());
        }
        match current_parent {
            Some(p) => {
                proof {
                    assert(t0.valid_region(p));
                    assert(t0.children_wf());
                    assert forall|i: int, j: int|
                        0 <= i < j < t0.children_of(p).len() implies t0.children_of(p)[i]
                        != t0.children_of(p)[j] by {}
                }
                self.apply_snapshot(p, &snap, true);
                let ghost t1 = *self;
                proof {
                    assert(t1.valid_region(p));
                }
                let newch: Vec<u32> = match &self.regions[p as usize] {
                    Some(b) => filter_out(&b.children, region_id),
                    None => Vec::new(),
                };
                match &mut self.regions[p as usize] {
                    Some(b) => b.children = newch,
                    None => {},
                }
                proof {
                    let t2l = *self;
                    assert forall|x: u32| t1.valid_region(x) <==> #[trigger] t2l.valid_region(
                        x,
                    ) by {}
                    assert forall|x: u32|
                        #[trigger] t1.valid_region(x) && x != p implies t2l.rbox(x) == t1.rbox(
                        x,
                    ) by {}
                    assert(t2l.rbox(p).parent == t1.rbox(p).parent);
                    assert(t2l.rbox(p).results == t1.rbox(p).results);
                    assert(t2l.rbox(p).region == t1.rbox(p).region);
                    assert(t2l.children_of(p) == newch@);
                    assert(t1.children_of(p) == t0.children_of(p));
                    assert(Self::child_removed(t0.children_of(p), t2l.children_of(p), region_id));
                    Self::lemma_chain_frame(t1, t2l);
                    assert forall|r2: u32| #[trigger] t2l.valid_region(r2) implies {
                        &&& (t2l.parent_of(r2) matches Some(u) ==> t2l.valid_region(u))
                        &&& t2l.results_of(r2).wf()
                        &&& t2l.has_chain(r2)
                    } by {
                        assert(t1.valid_region(r2));
                    }
                    assert(t2l.wf_core());
                    assert forall|x: u32| #[trigger] t0.valid_region(x) implies if t0.on_chain(
                        p,
                        x,
                    ) {
                        Self::table_snap_applied(t0.results_of(x), t2l.results_of(x), snap@, -1)
                    } else {
                        t2l.rbox(x).results == t0.rbox(x).results
                    } by {
                        assert(t1.valid_region(x));
                    }
                    assert(Self::detach_phase(t0, t2l, region_id, current_parent, snap@));
                }
            },
            None => {
                self.apply_snapshot_root(&snap, true);
                proof {
                    assert(Self::detach_phase(t0, *self, region_id, current_parent, snap@));
                }
            },
        }
        let ghost t2 = *self;
        proof {
            assert(t2.wf_core()) by {
                if current_parent is None {
                    Self::lemma_wf_same_regions_core(t0, t2);
                }
            }
            assert forall|x: u32| t0.valid_region(x) <==> #[trigger] t2.valid_region(x) by {
                if current_parent is None {
                }
            }
            assert forall|x: u32| #[trigger] t0.valid_region(x) implies t2.parent_of(x)
                == t0.parent_of(x) by {}
            Self::lemma_chain_frame(t0, t2);
            assert(t2.valid_region(region_id));
            assert(t2.valid_region(parent_id));
            t0.lemma_the_chain(parent_id);
            assert(t2.the_chain(parent_id) == t0.the_chain(parent_id));
        }
        match &mut self.regions[region_id as usize] {
            Some(b) => b.parent = Some(parent_id),
            None => {},
        }
        let ghost t3 = *self;
        proof {
            assert forall|x: u32| t2.valid_region(x) <==> #[trigger] t3.valid_region(x) by {}
            assert forall|x: u32|
                #[trigger] t2.valid_region(x) && x != region_id implies t3.parent_of(x)
                == t2.parent_of(x) by {
                assert(t3.rbox(x) == t2.rbox(x));
            }
            assert(!t2.the_chain(parent_id).contains(region_id));
            Self::lemma_relink(t2, t3, region_id, parent_id);
            assert forall|r2: u32| #[trigger] t3.valid_region(r2) implies {
                &&& (t3.parent_of(r2) matches Some(u) ==> t3.valid_region(u))
                &&& t3.results_of(r2).wf()
                &&& t3.has_chain(r2)
            } by {
                assert(t2.valid_region(r2));
                if r2 != region_id {
                    assert(t3.parent_of(r2) == t2.parent_of(r2));
                }
                assert(t3.results_of(r2) == t2.results_of(r2));
            }
            assert(t3.wf_core());
            assert(t3.the_chain(parent_id) == t0.the_chain(parent_id));
            assert(t3.valid_region(parent_id));
        }
        self.apply_snapshot(parent_id, &snap, false);
        let ghost t4 = *self;
        proof {
            assert(t3.valid_region(parent_id));
            assert(t4.valid_region(parent_id));
        }
        match &mut self.regions[parent_id as usize] {
            Some(b) => b.children.push(region_id),
            None => {},
        }
        let ghost t5 = *self;
        proof {
            Self::lemma_set_parent_finish(
                t0,
                t2,
                t3,
                t4,
                t5,
                region_id,
                parent_id,
                current_parent,
                snap@,
            );
        }
        Ok(())
    }

    /// Compose the phases of a re-parent into its overall effect.
    #[verifier::rlimit(100)]
    proof fn lemma_set_parent_finish(
        t0: ElectionTree,
        t2: ElectionTree,
        t3: ElectionTree,
        t4: ElectionTree,
        t5: ElectionTree,
        r: u32,
        q: u32,
        cp: Option<u32>,
        snap: Seq<(u32, SingleResult)>,
    )
        requires
            t0.wf(),
            t0.valid_region(r),
            t0.valid_region(q),
            r != q,
            !t0.the_chain(q).contains(r),
            snap == t0.results_of(r).entries@,
            cp == t0.parent_of(r),
            Self::detach_phase(t0, t2, r, cp, snap),
            t2.wf_core(),
            t3.regions@.len() == t2.regions@.len(),
            forall|xi: int|
                0 <= xi < t3.regions@.len() && xi != r ==> t3.regions@[xi] == t2.regions@[xi],
            t3.valid_region(r),
            t3.rbox(r).parent == Some(q),
            t3.rbox(r).region == t2.rbox(r).region,
            t3.rbox(r).results == t2.rbox(r).results,
            t3.rbox(r).children == t2.rbox(r).children,
            t3.root == t2.root,
            t3.candidacies@ == t2.candidacies@,
            t3.wf_core(),
            Self::snapshot_applied(t3, t4, q, snap, 1),
            t4.wf_core(),
            t5.regions@.len() == t4.regions@.len(),
            forall|xi: int|
                0 <= xi < t5.regions@.len() && xi != q ==> t5.regions@[xi] == t4.regions@[xi],
            t5.valid_region(q),
            t5.rbox(q).parent == t4.rbox(q).parent,
            t5.rbox(q).region == t4.rbox(q).region,
            t5.rbox(q).results == t4.rbox(q).results,
            t5.rbox(q).children@ == t4.rbox(q).children@.push(r),
            t5.root == t4.root,
            t5.candidacies@ == t4.candidacies@,
        ensures
            t5.wf(),
            Self::set_parent_applied(t0, t5, r, q),
    {
        let c_r = t0.the_chain(r);
        let c_q = t0.the_chain(q);
        // valid sets agree across all five states
        assert forall|x: u32| t0.valid_region(x) <==> #[trigger] t2.valid_region(x) by {
            if cp is None {
            }
        }
        assert forall|x: u32| t2.valid_region(x) <==> #[trigger] t3.valid_region(x) by {
            if x != r {
                if x < t3.regions@.len() {
                    assert(t3.regions@[x as int] == t2.regions@[x as int]);
                }
            }
        }
        assert forall|x: u32| t3.valid_region(x) <==> #[trigger] t4.valid_region(x) by {}
        assert forall|x: u32| t4.valid_region(x) <==> #[trigger] t5.valid_region(x) by {
            if x != q {
                if x < t5.regions@.len() {
                    assert(t5.regions@[x as int] == t4.regions@[x as int]);
                }
            }
        }
        // parents
        assert forall|x: u32| #[trigger] t0.valid_region(x) implies t2.parent_of(x)
            == t0.parent_of(x) by {
            if cp is None {
            }
        }
        assert forall|x: u32|
            #[trigger] t2.valid_region(x) && x != r implies t3.parent_of(x) == t2.parent_of(x)
            && t3.rbox(x) == t2.rbox(x) by {
            assert(t3.regions@[x as int] == t2.regions@[x as int]);
        }
        assert forall|x: u32|
            #[trigger] t4.valid_region(x) && x != q implies t5.rbox(x) == t4.rbox(x) by {
            assert(t5.regions@[x as int] == t4.regions@[x as int]);
        }
        // chains: unchanged into t2, re-pointed at t3, unchanged after
        Self::lemma_chain_frame(t0, t2);
        t0.lemma_the_chain(q);
        assert(t2.the_chain(q) == c_q);
        assert(t2.valid_region(r));
        assert(t2.valid_region(q));
        Self::lemma_relink(t2, t3, r, q);
        assert(t3.the_chain(q) == c_q);
        Self::lemma_chain_frame(t3, t4);
        assert(t4.the_chain(q) == c_q) by {
            assert(t3.has_chain(q));
        }
        Self::lemma_chain_frame(t4, t5);
        // the old update set is the old ancestor chain of the region
        assert forall|x: u32| true implies (match cp {
            Some(p) => t0.on_chain(p, x),
            None => false,
        } <==> c_r.contains(x)) by {
            match cp {
                Some(p) => {
                    t0.lemma_chain_step(r, p);
                    let c_p = t0.the_chain(p);
                    assert(c_r == seq![p] + c_p);
                    if x == p {
                        assert(c_r[0] == p);
                    }
                    if c_p.contains(x) {
                        let k = choose|k: int| 0 <= k < c_p.len() && c_p[k] == x;
                        assert(c_r[k + 1] == x);
                    }
                    if c_r.contains(x) {
                        let k = choose|k: int| 0 <= k < c_r.len() && c_r[k] == x;
                        if k > 0 {
                            assert(c_p[k - 1] == x);
                        }
                    }
                },
                None => {
                    t0.lemma_chain_top(r);
                },
            }
        }
        // the new update set
        assert forall|x: u32| true implies (t3.on_chain(q, x) <==> (x == q || c_q.contains(
            x,
        ))) by {}
        // region tables compose pointwise
        assert(!c_r.contains(r)) by {
            t0.lemma_the_chain(r);
            t0.lemma_chain_no_self(r, c_r);
        }
        assert(t5.results_of(r) == t0.results_of(r)) by {
            assert(t0.valid_region(r));
            assert(t2.rbox(r).results == t0.rbox(r).results);
            assert(t3.valid_region(r));
            assert(!t3.on_chain(q, r));
            assert(t4.rbox(r).results == t3.rbox(r).results);
            assert(t4.valid_region(r));
            assert(t5.rbox(r) == t4.rbox(r));
        }
        assert forall|x: u32| #[trigger] t0.valid_region(x) && x != r implies {
            &&& t5.results_of(x).wf()
            &&& (forall|c: u32|
                #[trigger] t5.results_of(x).spec_get(c) == Self::moved_get(
                    t0.results_of(x).spec_get(c),
                    snap,
                    c,
                    c_r.contains(x),
                    x == q || c_q.contains(x),
                ))
        } by {
            assert(t2.valid_region(x));
            assert(t3.valid_region(x));
            assert(t4.valid_region(x));
            assert(t3.results_of(x) == t2.results_of(x)) by {
                if x != r {
                    assert(t3.rbox(x) == t2.rbox(x));
                }
            }
            assert(t5.results_of(x) == t4.results_of(x)) by {
                if x == q {
                } else {
                    assert(t5.rbox(x) == t4.rbox(x));
                }
            }
            assert(t0.results_of(x).wf());
            assert forall|c: u32| true implies #[trigger] t5.results_of(x).spec_get(c)
                == Self::moved_get(
                t0.results_of(x).spec_get(c),
                snap,
                c,
                c_r.contains(x),
                x == q || c_q.contains(x),
            ) by {
                lemma_idx_of(snap, c);
                let in_old = c_r.contains(x);
                let in_new = x == q || c_q.contains(x);
                if in_old {
                    assert(Self::table_snap_applied(
                        t0.results_of(x),
                        t2.results_of(x),
                        snap,
                        -1,
                    ));
                } else {
                    assert(t2.rbox(x).results == t0.rbox(x).results);
                }
                if in_new {
                    assert(t3.on_chain(q, x));
                    assert(Self::table_snap_applied(
                        t3.results_of(x),
                        t4.results_of(x),
                        snap,
                        1,
                    ));
                } else {
                    assert(!t3.on_chain(q, x));
                    assert(t4.rbox(x).results == t3.rbox(x).results);
                }
            }
            assert(t5.results_of(x).wf()) by {
                assert(t4.results_of(x).wf());
            }
        }
        // the root passes the snapshot out and back in
        assert forall|c: u32| true implies #[trigger] t5.root_entry(c) == Self::moved_get(
            t0.root_entry(c),
            snap,
            c,
            true,
            true,
        ) by {
            lemma_idx_of(snap, c);
            assert(Self::table_snap_applied(t0.root.results, t2.root.results, snap, -1));
            assert(t3.root.results == t2.root.results);
            assert(Self::table_snap_applied(t3.root.results, t4.root.results, snap, 1));
            assert(t5.root.results == t4.root.results);
        }
        // children lists
        let had_parent = cp is Some;
        let p = cp->0;
        assert forall|x: u32|
            #[trigger] t0.valid_region(x) && x != q && !(had_parent && x == p) implies
            t5.children_of(x) == t0.children_of(x) by {
            assert(t2.children_of(x) == t0.children_of(x));
            assert(t2.valid_region(x));
            assert(t3.valid_region(x));
            assert(t4.valid_region(x));
            if x != r {
                assert(t3.rbox(x) == t2.rbox(x));
            }
            assert(t3.children_of(x) == t2.children_of(x));
            assert(t4.children_of(x) == t3.children_of(x));
            assert(t5.rbox(x) == t4.rbox(x));
        }
        assert(t4.children_of(q) == t2.children_of(q)) by {
            assert(t2.valid_region(q));
            assert(t3.valid_region(q));
            if q != r {
                assert(t3.rbox(q) == t2.rbox(q));
            }
            assert(t4.children_of(q) == t3.children_of(q));
        }
        assert(t5.children_of(q) == t4.children_of(q).push(r));
        if had_parent {
            assert(Self::child_removed(t0.children_of(p), t2.children_of(p), r));
            if p != q {
                assert(t2.children_of(q) == t0.children_of(q));
                assert(t5.children_of(q) == t0.children_of(q).push(r));
                assert(t5.children_of(p) == t2.children_of(p)) by {
                    assert(t2.valid_region(p));
                    assert(t3.valid_region(p));
                    assert(t4.valid_region(p));
                    if p != r {
                        assert(t3.rbox(p) == t2.rbox(p));
                    }
                    assert(t4.children_of(p) == t3.children_of(p));
                    assert(t5.rbox(p) == t4.rbox(p));
                }
            } else {
                assert(t5.children_of(q).drop_last() =~= t2.children_of(q));
                assert(t5.children_of(q).last() == r);
            }
        } else {
            assert(t2.children_of(q) == t0.children_of(q));
            assert(t5.children_of(q) == t0.children_of(q).push(r));
        }
        assert(t5.parent_of(r) == Some(q)) by {
            assert(t3.parent_of(r) == Some(q));
            assert(t3.valid_region(r));
            assert(t4.parent_of(r) == t3.parent_of(r));
            assert(t4.valid_region(r));
            assert(t5.rbox(r) == t4.rbox(r));
        }
        assert(t5.regions@.len() == t0.regions@.len());
        assert(t5.candidacies@ == t0.candidacies@);
        assert forall|x: u32| t0.valid_region(x) <==> #[trigger] t5.valid_region(x) by {
            assert(t0.valid_region(x) <==> t2.valid_region(x));
            assert(t2.valid_region(x) <==> t3.valid_region(x));
            assert(t3.valid_region(x) <==> t4.valid_region(x));
        }
        assert forall|x: u32|
            #[trigger] t0.valid_region(x) && x != r implies t5.parent_of(x) == t0.parent_of(
            x,
        ) by {
            assert(t2.valid_region(x));
            assert(t3.rbox(x) == t2.rbox(x));
            assert(t3.valid_region(x));
            assert(t4.parent_of(x) == t3.parent_of(x));
            assert(t4.valid_region(x));
            if x != q {
                assert(t5.rbox(x) == t4.rbox(x));
            }
        }
        assert forall|x: u32| #[trigger] t0.valid_region(x) implies t5.rbox(x).region
            == t0.rbox(x).region by {
            assert(t2.valid_region(x));
            assert(t2.rbox(x).region == t0.rbox(x).region);
            if x != r {
                assert(t3.rbox(x) == t2.rbox(x));
            }
            assert(t3.valid_region(x));
            assert(t4.rbox(x).region == t3.rbox(x).region);
            assert(t4.valid_region(x));
            if x != q {
                assert(t5.rbox(x) == t4.rbox(x));
            }
        }
        assert(t5.root.region == t0.root.region);
        assert(Self::set_parent_applied(t0, t5, r, q));
        // well-formedness of the final state
        assert forall|r2: u32| #[trigger] t5.valid_region(r2) implies {
            &&& (t5.parent_of(r2) matches Some(u) ==> t5.valid_region(u))
            &&& t5.results_of(r2).wf()
            &&& t5.has_chain(r2)
        } by {
            assert(t4.valid_region(r2));
        }
        assert(t5.wf_core());
        // parent/child duality
        assert forall|r2: u32| #[trigger] t5.valid_region(r2) implies {
            &&& (forall|i: int|
                0 <= i < t5.children_of(r2).len() ==> {
                    &&& t5.valid_region(#[trigger] t5.children_of(r2)[i])
                    &&& t5.parent_of(t5.children_of(r2)[i]) == Some(r2)
                })
            &&& (forall|i: int, j: int|
                0 <= i < j < t5.children_of(r2).len()
                    ==> t5.children_of(r2)[i] != t5.children_of(r2)[j])
        } by {
            assert(t0.valid_region(r2));
            assert forall|i: int, j: int|
                0 <= i < j < t0.children_of(r2).len() implies t0.children_of(r2)[i]
                != t0.children_of(r2)[j] by {}
            // a region can only be listed as a child of its recorded parent
            assert forall|x: u32|
                t0.children_of(r2).contains(x) implies t0.valid_region(x) && t0.parent_of(x)
                == Some(r2) by {
                let i = choose|i: int| 0 <= i < t0.children_of(r2).len() && t0.children_of(r2)[i]
                    == x;
                assert(t0.valid_region(t0.children_of(r2)[i]));
                assert(t0.parent_of(t0.children_of(r2)[i]) == Some(r2));
            }
            if r2 == q {
                assert forall|i: int| 0 <= i < t5.children_of(q).len() implies {
                    &&& t5.valid_region(#[trigger] t5.children_of(q)[i])
                    &&& t5.parent_of(t5.children_of(q)[i]) == Some(q)
                } by {
                    let x = t5.children_of(q)[i];
                    if i == t5.children_of(q).len() - 1 {
                        assert(x == r);
                        assert(t5.parent_of(r) == Some(q)) by {
                            assert(t3.parent_of(r) == Some(q));
                            assert(t4.parent_of(r) == t3.parent_of(r)) by {
                                assert(t3.valid_region(r));
                            }
                            assert(r != q);
                            assert(t4.valid_region(r));
                            assert(t5.rbox(r) == t4.rbox(r));
                        }
                    } else {
                        assert(t4.children_of(q)[i] == x);
                        assert(t4.children_of(q) == t2.children_of(q));
                        if had_parent && p == q {
                            assert(t2.children_of(q).contains(x));
                            assert(x != r);
                            assert(t0.children_of(q).contains(x));
                        } else {
                            assert(t2.children_of(q) == t0.children_of(q));
                            assert(t0.children_of(q).contains(x));
                            assert(x != r) by {
                                if x == r {
                                    assert(t0.parent_of(r) == Some(q));
                                }
                            }
                        }
                        assert(t0.valid_region(x) && t0.parent_of(x) == Some(r2));
                        assert(t5.parent_of(x) == t0.parent_of(x)) by {
                            assert(t2.valid_region(x));
                            assert(t3.rbox(x) == t2.rbox(x));
                            assert(t3.valid_region(x));
                            assert(t4.parent_of(x) == t3.parent_of(x));
                            assert(t4.valid_region(x));
                            if x != q {
                                assert(t5.rbox(x) == t4.rbox(x));
                            }
                        }
                        assert(t5.valid_region(x)) by {
                            assert(t2.valid_region(x));
                            assert(t3.valid_region(x));
                            assert(t4.valid_region(x));
                        }
                    }
                }
                assert forall|i: int, j: int|
                    0 <= i < j < t5.children_of(q).len() implies t5.children_of(q)[i]
                    != t5.children_of(q)[j] by {
                    let base = t4.children_of(q);
                    if j == t5.children_of(q).len() - 1 {
                        assert(t5.children_of(q)[j] == r);
                        let x = t5.children_of(q)[i];
                        assert(base[i] == x);
                        if had_parent && p == q {
                            assert(x != r);
                        } else {
                            assert(t0.children_of(q).contains(x));
                            if x == r {
                                assert(t0.parent_of(r) == Some(q));
                            }
                        }
                    } else {
                        assert(t5.children_of(q)[i] == base[i]);
                        assert(t5.children_of(q)[j] == base[j]);
                        if had_parent && p == q {
                        } else {
                            assert(base == t0.children_of(q));
                        }
                    }
                }
            } else {
                let ch = t5.children_of(r2);
                assert(ch == (if had_parent && r2 == p {
                    t2.children_of(p)
                } else {
                    t0.children_of(r2)
                }));
                assert forall|i: int| 0 <= i < ch.len() implies {
                    &&& t5.valid_region(#[trigger] ch[i])
                    &&& t5.parent_of(ch[i]) == Some(r2)
                } by {
                    let x = ch[i];
                    assert(ch.contains(x));
                    if had_parent && r2 == p {
                        assert(x != r);
                        assert(t0.children_of(p).contains(x));
                    } else {
                        assert(t0.children_of(r2).contains(x));
                        assert(x != r) by {
                            if x == r {
                                assert(t0.parent_of(r) == Some(r2));
                                if had_parent {
                                    assert(r2 == p);
                                }
                            }
                        }
                    }
                    assert(t0.valid_region(x) && t0.parent_of(x) == Some(r2));
                    assert(t2.valid_region(x));
                    assert(t3.rbox(x) == t2.rbox(x));
                    assert(t3.valid_region(x));
                    assert(t4.parent_of(x) == t3.parent_of(x));
                    assert(t4.valid_region(x));
                    if x != q {
                        assert(t5.rbox(x) == t4.rbox(x));
                    } else {
                        assert(t5.rbox(q).parent == t4.rbox(q).parent);
                    }
                    assert(t5.valid_region(x));
                }
                assert forall|i: int, j: int| 0 <= i < j < ch.len() implies ch[i] != ch[j] by {}
            }
        }
        assert forall|x: u32, u: u32|
            t5.valid_region(x) && #[trigger] t5.parent_of(x) == Some(u) && t5.valid_region(
            u,
        ) implies #[trigger] t5.children_of(u).contains(x) by {
            assert(t4.valid_region(x));
            assert(t3.valid_region(x));
            assert(t2.valid_region(x));
            assert(t0.valid_region(x));
            if x == r {
                assert(t5.parent_of(r) == Some(q)) by {
                    assert(t3.parent_of(r) == Some(q));
                    assert(t4.parent_of(r) == t3.parent_of(r));
                    assert(t5.rbox(r) == t4.rbox(r));
                }
                assert(u == q);
                assert(t5.children_of(q).last() == r);
                assert(t5.children_of(q).contains(r));
            } else {
                assert(t5.parent_of(x) == t0.parent_of(x)) by {
                    assert(t3.rbox(x) == t2.rbox(x));
                    assert(t4.parent_of(x) == t3.parent_of(x));
                    if x != q {
                        assert(t5.rbox(x) == t4.rbox(x));
                    }
                }
                assert(t0.parent_of(x) == Some(u));
                assert(t0.valid_region(u));
                assert(t0.children_of(u).contains(x));
                if u == q {
                    let base = t4.children_of(q);
                    if had_parent && p == q {
                        assert(Self::child_removed(t0.children_of(q), t2.children_of(q), r));
                        assert(t2.children_of(q).contains(x));
                        assert(base == t2.children_of(q));
                        let k = choose|k: int| 0 <= k < base.len() && base[k] == x;
                        assert(t5.children_of(q)[k] == x);
                    } else {
                        assert(base == t0.children_of(q));
                        let k = choose|k: int| 0 <= k < base.len() && base[k] == x;
                        assert(t5.children_of(q)[k] == x);
                    }
                } else if had_parent && u == p {
                    assert(Self::child_removed(t0.children_of(p), t2.children_of(p), r));
                    assert(t2.children_of(p).contains(x));
                    assert(t5.children_of(p) == t2.children_of(p)) by {
                        assert(t3.rbox(p) == t2.rbox(p)) by {
                            assert(p != r) by {
                                if p == r {
                                    assert(t0.parent_of(r) == Some(r));
                                    t0.lemma_the_chain(r);
                                    assert(t0.the_chain(r)[0] == r);
                                    t0.lemma_chain_no_self(r, t0.the_chain(r));
                                }
                            }
                        }
                        assert(t4.children_of(p) == t3.children_of(p));
                        assert(t5.rbox(p) == t4.rbox(p));
                    }
                } else {
                    assert(t5.children_of(u) == t0.children_of(u));
                }
            }
        }
        assert(t5.children_wf());
    }

    // ----- reads -----

    /// A region's vote tally for a candidacy: the region's own count,
    /// zero when no entry is recorded. Fails only for an unknown region.
    pub fn get_votes(&self, region_id: u32, candidacy_id: u32) -> (r: Result<u32, ErrorTree>)
        ensures
            match r {
                Ok(v) => self.valid_region(region_id) && v == self.votes_of(
                    region_id,
                    candidacy_id,
                ),
                Err(e) => !self.valid_region(region_id) && e == ErrorTree::RegionNotFound,
            },
    {
        if !self.has_region(region_id) {
            return Err(ErrorTree::RegionNotFound);
        }
        let got: Option<u32> = match &self.regions[region_id as usize] {
            Some(b) => b.results.get_votes(candidacy_id),
            None => None,
        };
        match got {
            Some(v) => Ok(v),
            None => Ok(0),
        }
    }

    /// A region's seat tally for a candidacy: the region's own count,
    /// zero when no entry is recorded. Fails only for an unknown region.
    pub fn get_seats(&self, region_id: u32, candidacy_id: u32) -> (r: Result<u32, ErrorTree>)
        ensures
            match r {
                Ok(v) => self.valid_region(region_id) && v == self.seats_of(
                    region_id,
                    candidacy_id,
                ),
                Err(e) => !self.valid_region(region_id) && e == ErrorTree::RegionNotFound,
            },
    {
        if !self.has_region(region_id) {
            return Err(ErrorTree::RegionNotFound);
        }
        let got: Option<u32> = match &self.regions[region_id as usize] {
            Some(b) => b.results.get_seats(candidacy_id),
            None => None,
        };
        match got {
            Some(v) => Ok(v),
            None => Ok(0),
        }
    }

    /// Snapshot a region's entries as a list of (candidacy id, tally).
    pub fn iterate_results(&self, region_id: u32) -> (r: Result<
        Vec<(u32, SingleResult)>,
        ErrorTree,
    >)
        ensures
            match r {
                Ok(v) => self.valid_region(region_id) && v@ == self.results_of(region_id).entries@,
                Err(e) => !self.valid_region(region_id) && e == ErrorTree::RegionNotFound,
            },
    {
        if !self.has_region(region_id) {
            return Err(ErrorTree::RegionNotFound);
        }
        match &self.regions[region_id as usize] {
            Some(b) => Ok(b.results.iter_results()),
            None => Err(ErrorTree::RegionNotFound),
        }
    }

    pub fn get_region(&self, id: u32) -> (r: Result<&Region, ErrorTree>)
        ensures
            match r {
                Ok(reg) => self.valid_region(id) && *reg == self.rbox(id).region,
                Err(e) => !self.valid_region(id) && e == ErrorTree::RegionNotFound,
            },
    {
        if self.has_region(id) {
            match &self.regions[id as usize] {
                Some(b) => Ok(&b.region),
                None => Err(ErrorTree::RegionNotFound),
            }
        } else {
            Err(ErrorTree::RegionNotFound)
        }
    }

    pub fn get_results(&self, region_id: u32) -> (r: Result<&RegionResults, ErrorTree>)
        ensures
            match r {
                Ok(res) => self.valid_region(region_id) && *res == self.results_of(region_id),
                Err(e) => !self.valid_region(region_id) && e == ErrorTree::RegionNotFound,
            },
    {
        if self.has_region(region_id) {
            match &self.regions[region_id as usize] {
                Some(b) => Ok(&b.results),
                None => Err(ErrorTree::RegionNotFound),
            }
        } else {
            Err(ErrorTree::RegionNotFound)
        }
    }

    pub fn get_parent(&self, region_id: u32) -> (r: Result<Option<u32>, ErrorTree>)
        ensures
            match r {
                Ok(p) => self.valid_region(region_id) && p == self.parent_of(region_id),
                Err(e) => !self.valid_region(region_id) && e == ErrorTree::RegionNotFound,
            },
    {
        if self.has_region(region_id) {
            Ok(self.parent_raw(region_id))
        } else {
            Err(ErrorTree::RegionNotFound)
        }
    }

    pub fn get_candidacy(&self, id: u32) -> (r: Result<&Candidacy, ErrorTree>)
        ensures
            match r {
                Ok(c) => self.valid_candidacy(id) && *c == self.candidacies@[id as int]->0,
                Err(e) => !self.valid_candidacy(id) && e == ErrorTree::CandidacyNotFound,
            },
    {
        if self.has_candidacy(id) {
            match &self.candidacies[id as usize] {
                Some(c) => Ok(c),
                None => Err(ErrorTree::CandidacyNotFound),
            }
        } else {
            Err(ErrorTree::CandidacyNotFound)
        }
    }

    /// Whether the region has no children.
    pub fn is_leaf(&self, region_id: u32) -> (r: Result<bool, ErrorTree>)
        ensures
            match r {
                Ok(b) => self.valid_region(region_id) && b == self.spec_is_leaf(region_id),
                Err(e) => !self.valid_region(region_id) && e == ErrorTree::RegionNotFound,
            },
    {
        if self.has_region(region_id) {
            match &self.regions[region_id as usize] {
                Some(b) => Ok(b.children.len() == 0),
                None => Err(ErrorTree::RegionNotFound),
            }
        } else {
            Err(ErrorTree::RegionNotFound)
        }
    }

    /// The ids of the region's children.
    pub fn get_children(&self, region_id: u32) -> (r: Result<Vec<u32>, ErrorTree>)
        ensures
            match r {
                Ok(v) => self.valid_region(region_id) && v@ == self.children_of(region_id),
                Err(e) => !self.valid_region(region_id) && e == ErrorTree::RegionNotFound,
            },
    {
        if self.has_region(region_id) {
            match &self.regions[region_id as usize] {
                Some(b) => Ok(clone_u32_vec(&b.children)),
                None => Err(ErrorTree::RegionNotFound),
            }
        } else {
            Err(ErrorTree::RegionNotFound)
        }
    }

    /// The ancestors of a region, nearest first.
    pub fn ancestors(&self, region_id: u32) -> (r: Result<Vec<u32>, ErrorTree>)
        requires
            self.wf_core(),
        ensures
            match r {
                Ok(v) => self.valid_region(region_id) && v@ == self.the_chain(region_id),
                Err(e) => !self.valid_region(region_id) && e == ErrorTree::RegionNotFound,
            },
    {
        if !self.has_region(region_id) {
            return Err(ErrorTree::RegionNotFound);
        }
        let mut out: Vec<u32> = Vec::new();
        let mut cur: u32 = region_id;
        proof {
            self.lemma_the_chain(region_id);
        }
        loop
            invariant
                self.wf_core(),
                self.valid_region(cur),
                self.valid_region(region_id),
                self.the_chain(region_id) == out@ + self.the_chain(cur),
            ensures
                out@ == self.the_chain(region_id),
            decreases self.the_chain(cur).len(),
        {
            match self.parent_raw(cur) {
                Some(p) => {
                    proof {
                        self.lemma_chain_step(cur, p);
                        assert(out@ + self.the_chain(cur) =~= (out@ + seq![p]) + self.the_chain(
                            p,
                        ));
                    }
                    out.push(p);
                    cur = p;
                },
                None => {
                    proof {
                        self.lemma_chain_top(cur);
                        assert(out@ + self.the_chain(cur) =~= out@);
                    }
                    break ;
                },
            }
        }
        Ok(out)
    }
}

/// Whether a list of ids holds the given id.
fn vec_contains(v: &Vec<u32>, id: u32) -> (b: bool)
    ensures
        b == v@.contains(id),
{
    let n = v.len();
    let mut j: usize = 0;
    while j < n
        invariant
            j <= n,
            n == v@.len(),
            forall|k: int| 0 <= k < j ==> v@[k] != id,
        decreases n - j,
    {
        if v[j] == id {
            return true;
        }
        j = j + 1;
    }
    false
}

/// Strike one id out of a list of unique ids.
fn filter_out(v: &Vec<u32>, id: u32) -> (r: Vec<u32>)
    requires
        forall|m1: int, m2: int| 0 <= m1 < m2 < v@.len() ==> v@[m1] != v@[m2],
    ensures
        ElectionTree::child_removed(v@, r@, id),
{
    let mut r: Vec<u32> = Vec::new();
    let n = v.len();
    let mut j: usize = 0;
    while j < n
        invariant
            j <= n,
            n == v@.len(),
            forall|m1: int, m2: int| 0 <= m1 < m2 < v@.len() ==> v@[m1] != v@[m2],
            forall|k: int| 0 <= k < r@.len() ==> r@[k] != id,
            forall|x: u32| x != id ==> (r@.contains(x) <==> v@.take(j as int).contains(x)),
            forall|k: int|
                0 <= k < r@.len() ==> exists|m: int| 0 <= m < j && v@[m] == #[trigger] r@[k],
            forall|i: int, k: int| 0 <= i < k < r@.len() ==> r@[i] != r@[k],
        decreases n - j,
    {
        let ghost prev = r@;
        if v[j] != id {
            r.push(v[j]);
        }
        proof {
            assert forall|x: u32| x != id implies (r@.contains(x) <==> v@.take(
                j as int + 1,
            ).contains(x)) by {
                let t = v@.take(j as int + 1);
                assert(t[j as int] == v@[j as int]);
                assert(forall|m: int| 0 <= m < j ==> t[m] == v@.take(j as int)[m]);
                if r@.contains(x) {
                    let k = choose|k: int| 0 <= k < r@.len() && r@[k] == x;
                    if k < prev.len() {
                        assert(prev[k] == x);
                        assert(prev.contains(x));
                        let m = choose|m: int|
                            0 <= m < v@.take(j as int).len() && v@.take(j as int)[m] == x;
                        assert(t[m] == x);
                    } else {
                        assert(x == v@[j as int]);
                        assert(t[j as int] == x);
                    }
                }
                if t.contains(x) {
                    let m = choose|m: int| 0 <= m < t.len() && t[m] == x;
                    if m < j {
                        assert(v@.take(j as int)[m] == x);
                        assert(v@.take(j as int).contains(x));
                        assert(prev.contains(x));
                        let k = choose|k: int| 0 <= k < prev.len() && prev[k] == x;
                        assert(r@[k] == x);
                    } else {
                        assert(x == v@[j as int]);
                        if v@[j as int] != id {
                            assert(r@[r@.len() - 1] == x);
                        }
                    }
                }
            }
            assert forall|i: int, k: int| 0 <= i < k < r@.len() implies r@[i] != r@[k] by {
                if k == r@.len() - 1 && r@.len() > prev.len() {
                    assert(r@[k] == v@[j as int]);
                    assert(r@[i] == prev[i]);
                    let m = choose|m: int| 0 <= m < j && v@[m] == r@[i];
                    assert(v@[m] != v@[j as int]);
                }
            }
        }
        j = j + 1;
    }
    proof {
        assert(v@.take(n as int) =~= v@);
    }
    r
}

/// Copy a vector of ids.
fn clone_u32_vec(v: &Vec<u32>) -> (r: Vec<u32>)
    ensures
        r@ == v@,
{
    let mut r: Vec<u32> = Vec::new();
    let n = v.len();
    let mut j: usize = 0;
    while j < n
        invariant
            j <= n,
            n == v@.len(),
            r@ =~= v@.subrange(0, j as int),
        decreases n - j,
    {
        r.push(v[j]);
        j = j + 1;
    }
    proof {
        assert(r@ =~= v@);
    }
    r
}

} // verus!
