//! Per-region tally table: a mapping from candidacy id to its tally.
//! Absent entries read as zero; increments saturate at zero and at
//! `u32::MAX` so that no arithmetic can fail.

use vstd::prelude::*;
use vstd::pervasive::VecAdditionalExecFns;

use crate::tree::single_result::SingleResult;

verus! {

/// Addition of a signed delta to an unsigned count, clamped to `[0, u32::MAX]`.
pub open spec fn sat_add_u32(a: u32, d: int) -> u32 {
    if a + d < 0 {
        0u32
    } else if a + d > u32::MAX {
        u32::MAX
    } else {
        (a + d) as u32
    }
}

/// Index of the first entry with the given id, or -1 when there is none.
pub open spec fn idx_of(s: Seq<(u32, SingleResult)>, id: u32) -> int
    decreases s.len(),
{
    if s.len() == 0 {
        -1
    } else if s[0].0 == id {
        0
    } else {
        let r = idx_of(s.subrange(1, s.len() as int), id);
        if r < 0 {
            -1
        } else {
            r + 1
        }
    }
}

/// What `idx_of` finds: a match with no earlier match, or no match at all.
pub proof fn lemma_idx_of(s: Seq<(u32, SingleResult)>, id: u32)
    ensures
        idx_of(s, id) == -1 ==> forall|k: int| 0 <= k < s.len() ==> s[k].0 != id,
        idx_of(s, id) != -1 ==> 0 <= idx_of(s, id) < s.len() && s[idx_of(s, id)].0 == id
            && forall|k: int| 0 <= k < idx_of(s, id) ==> s[k].0 != id,
    decreases s.len(),
{
    if s.len() == 0 {
    } else if s[0].0 == id {
    } else {
        let t = s.subrange(1, s.len() as int);
        lemma_idx_of(t, id);
        assert forall|k: int| 1 <= k < s.len() implies s[k] == t[k - 1] by {}
    }
}

/// When the ids are unique and the id occurs at position `m`, `idx_of` finds `m`.
pub proof fn lemma_found(s: Seq<(u32, SingleResult)>, id: u32, m: int)
    requires
        forall|i: int, j: int| 0 <= i < j < s.len() ==> s[i].0 != s[j].0,
        0 <= m < s.len(),
        s[m].0 == id,
    ensures
        idx_of(s, id) == m,
{
    lemma_idx_of(s, id);
    if idx_of(s, id) == -1 {
        assert(s[m].0 != id);
    } else {
        let k = idx_of(s, id);
        if k < m {
            assert(s[k].0 != s[m].0);
        } else if k > m {
            assert(s[m].0 != s[k].0);
        }
    }
}

/// When the id occurs nowhere, `idx_of` reports -1.
pub proof fn lemma_not_found(s: Seq<(u32, SingleResult)>, id: u32)
    requires
        forall|k: int| 0 <= k < s.len() ==> s[k].0 != id,
    ensures
        idx_of(s, id) == -1,
{
    lemma_idx_of(s, id);
}

/// The tally that results from applying a pair of saturating deltas to an
/// entry that may be absent (an absent entry counts as zero).
pub open spec fn tally_apply(e: Option<SingleResult>, dv: int, ds: int) -> SingleResult {
    let b = match e {
        Some(x) => x,
        None => SingleResult { votes: 0u32, seats: 0u32 },
    };
    SingleResult { votes: sat_add_u32(b.votes, dv), seats: sat_add_u32(b.seats, ds) }
}

/// Per-region mapping from candidacy id to its tally.
#[derive(Debug, Clone)]
pub struct RegionResults {
    pub entries: Vec<(u32, SingleResult)>,
}

impl RegionResults {
    /// Each candidacy id appears at most once.
    pub open spec fn wf(self) -> bool {
        forall|i: int, j: int|
            0 <= i < j < self.entries@.len() ==> self.entries@[i].0 != self.entries@[j].0
    }

    /// The candidacy ids, in the order entries were first recorded.
    pub open spec fn ids(self) -> Seq<u32> {
        self.entries@.map_values(|e: (u32, SingleResult)| e.0)
    }

    pub open spec fn spec_idx(self, id: u32) -> int {
        idx_of(self.entries@, id)
    }

    pub open spec fn contains_id(self, id: u32) -> bool {
        self.spec_idx(id) >= 0
    }

    /// The entry recorded for a candidacy, if any.
    pub open spec fn spec_get(self, id: u32) -> Option<SingleResult> {
        if self.contains_id(id) {
            Some(self.entries@[self.spec_idx(id)].1)
        } else {
            None
        }
    }

    /// The vote count for a candidacy; zero when absent.
    pub open spec fn votes_of(self, id: u32) -> u32 {
        match self.spec_get(id) {
            Some(e) => e.votes,
            None => 0u32,
        }
    }

    /// The seat count for a candidacy; zero when absent.
    pub open spec fn seats_of(self, id: u32) -> u32 {
        match self.spec_get(id) {
            Some(e) => e.seats,
            None => 0u32,
        }
    }

    pub fn new() -> (r: RegionResults)
        ensures
            r.wf(),
            r.entries@.len() == 0,
            forall|c: u32| r.spec_get(c) is None,
    {
        let r = RegionResults { entries: Vec::new() };
        proof {
            assert forall|c: u32| r.spec_get(c) is None by {
                lemma_idx_of(r.entries@, c);
            }
        }
        r
    }

    /// Scan for the entry holding the given id.
    fn find(&self, id: u32) -> (r: Option<usize>)
        ensures
            match r {
                Some(i) => self.contains_id(id) && i == self.spec_idx(id)
                    && i < self.entries@.len() && self.entries@[i as int].0 == id
                    && self.spec_get(id) == Some(self.entries@[i as int].1),
                None => !self.contains_id(id) && self.spec_get(id) is None,
            },
    {
        let n = self.entries.len();
        let mut j: usize = 0;
        loop
            invariant
                j <= n,
                n == self.entries@.len(),
                forall|k: int| 0 <= k < j ==> self.entries@[k].0 != id,
            decreases n - j,
        {
            if j == n {
                proof {
                    lemma_idx_of(self.entries@, id);
                }
                return None;
            }
            if self.entries[j].0 == id {
                proof {
                    lemma_idx_of(self.entries@, id);
                }
                return Some(j);
            }
            j = j + 1;
        }
    }

    pub fn get_votes(&self, id: u32) -> (r: Option<u32>)
        ensures
            r == (match self.spec_get(id) {
                Some(e) => Some(e.votes),
                None => None::<u32>,
            }),
    {
        match self.find(id) {
            Some(i) => Some(self.entries[i].1.votes),
            None => None,
        }
    }

    pub fn get_seats(&self, id: u32) -> (r: Option<u32>)
        ensures
            r == (match self.spec_get(id) {
                Some(e) => Some(e.seats),
                None => None::<u32>,
            }),
    {
        match self.find(id) {
            Some(i) => Some(self.entries[i].1.seats),
            None => None,
        }
    }

    /// Apply saturating deltas to the entry for `id`, creating it when absent.
    pub(crate) fn apply(&mut self, id: u32, dv: i64, ds: i64)
        requires
            old(self).wf(),
            -(u32::MAX as i64) <= dv <= u32::MAX as i64,
            -(u32::MAX as i64) <= ds <= u32::MAX as i64,
        ensures
            final(self).wf(),
            final(self).spec_get(id) == Some(tally_apply(old(self).spec_get(id), dv as int, ds as int)),
            forall|c: u32| c != id ==> final(self).spec_get(c) == old(self).spec_get(c),
            final(self).ids() == if old(self).contains_id(id) {
                old(self).ids()
            } else {
                old(self).ids().push(id)
            },
            final(self).entries@.len() == old(self).entries@.len()
                + if old(self).contains_id(id) { 0int } else { 1int },
    {
        let ghost orig = *old(self);
        match self.find(id) {
            Some(i) => {
                let cur = self.entries[i].1;
                let nv = sat_add_exec(cur.votes, dv);
                let ns = sat_add_exec(cur.seats, ds);
                self.entries.set(i, (id, SingleResult { votes: nv, seats: ns }));
                proof {
                    let s1 = orig.entries@;
                    let s2 = self.entries@;
                    let ii = i as int;
                    assert forall|k: int| 0 <= k < s1.len() implies s2[k].0 == s1[k].0 by {}
                    lemma_found(s2, id, ii);
                    assert forall|c: u32| c != id implies final(self).spec_get(c) == orig.spec_get(c) by {
                        if orig.contains_id(c) {
                            let m = idx_of(s1, c);
                            lemma_idx_of(s1, c);
                            lemma_found(s2, c, m);
                        } else {
                            lemma_idx_of(s1, c);
                            lemma_not_found(s2, c);
                        }
                    }
                    assert(final(self).ids() =~= orig.ids());
                }
            },
            None => {
                let nv = sat_add_exec(0, dv);
                let ns = sat_add_exec(0, ds);
                self.entries.push((id, SingleResult { votes: nv, seats: ns }));
                proof {
                    let s1 = orig.entries@;
                    let s2 = self.entries@;
                    lemma_idx_of(s1, id);
                    assert(forall|k: int| 0 <= k < s1.len() ==> s1[k].0 != id);
                    assert(self.wf());
                    lemma_found(s2, id, s1.len() as int);
                    assert forall|c: u32| c != id implies final(self).spec_get(c) == orig.spec_get(c) by {
                        if orig.contains_id(c) {
                            let m = idx_of(s1, c);
                            lemma_idx_of(s1, c);
                            lemma_found(s2, c, m);
                        } else {
                            lemma_idx_of(s1, c);
                            lemma_not_found(s2, c);
                        }
                    }
                    assert(final(self).ids() =~= orig.ids().push(id));
                }
            },
        }
    }

    /// Add a signed vote delta, saturating at zero and at `u32::MAX`.
    pub fn increase_votes(&mut self, id: u32, votes: i32)
        requires
            old(self).wf(),
        ensures
            final(self).wf(),
            final(self).spec_get(id) == Some(tally_apply(old(self).spec_get(id), votes as int, 0)),
            forall|c: u32| c != id ==> final(self).spec_get(c) == old(self).spec_get(c),
            final(self).ids() == if old(self).contains_id(id) {
                old(self).ids()
            } else {
                old(self).ids().push(id)
            },
    {
        self.apply(id, votes as i64, 0);
    }

    /// Add a signed seat delta, saturating at zero and at `u32::MAX`.
    pub fn increase_seats(&mut self, id: u32, seats: i8)
        requires
            old(self).wf(),
        ensures
            final(self).wf(),
            final(self).spec_get(id) == Some(tally_apply(old(self).spec_get(id), 0, seats as int)),
            forall|c: u32| c != id ==> final(self).spec_get(c) == old(self).spec_get(c),
            final(self).ids() == if old(self).contains_id(id) {
                old(self).ids()
            } else {
                old(self).ids().push(id)
            },
    {
        self.apply(id, 0, seats as i64);
    }

    /// Set the vote count outright, keeping the seat count.
    pub fn set_votes(&mut self, id: u32, votes: u32)
        requires
            old(self).wf(),
        ensures
            final(self).wf(),
            final(self).spec_get(id) == Some(SingleResult {
                votes,
                seats: old(self).seats_of(id),
            }),
            forall|c: u32| c != id ==> final(self).spec_get(c) == old(self).spec_get(c),
            final(self).ids() == if old(self).contains_id(id) {
                old(self).ids()
            } else {
                old(self).ids().push(id)
            },
    {
        let cur: u32 = match self.get_votes(id) {
            Some(v) => v,
            None => 0,
        };
        let d: i64 = votes as i64 - cur as i64;
        self.apply(id, d, 0);
    }

    /// Set the seat count outright, keeping the vote count.
    pub fn set_seats(&mut self, id: u32, seats: u32)
        requires
            old(self).wf(),
        ensures
            final(self).wf(),
            final(self).spec_get(id) == Some(SingleResult {
                votes: old(self).votes_of(id),
                seats,
            }),
            forall|c: u32| c != id ==> final(self).spec_get(c) == old(self).spec_get(c),
            final(self).ids() == if old(self).contains_id(id) {
                old(self).ids()
            } else {
                old(self).ids().push(id)
            },
    {
        let cur: u32 = match self.get_seats(id) {
            Some(v) => v,
            None => 0,
        };
        let d: i64 = seats as i64 - cur as i64;
        self.apply(id, 0, d);
    }

    /// All recorded entries, in recording order.
    pub fn iter_results(&self) -> (r: Vec<(u32, SingleResult)>)
        ensures
            r@ == self.entries@,
    {
        let mut r: Vec<(u32, SingleResult)> = Vec::new();
        let n = self.entries.len();
        let mut j: usize = 0;
        while j < n
            invariant
                j <= n,
                n == self.entries@.len(),
                r@ =~= self.entries@.subrange(0, j as int),
            decreases n - j,
        {
            r.push(self.entries[j]);
            j = j + 1;
        }
        proof {
            assert(r@ =~= self.entries@);
        }
        r
    }

    /// Delete the entry for a candidacy, if present.
    pub fn remove_result(&mut self, id: u32)
        requires
            old(self).wf(),
        ensures
            final(self).wf(),
            final(self).spec_get(id) is None,
            forall|c: u32| c != id ==> final(self).spec_get(c) == old(self).spec_get(c),
            final(self).entries@ == if old(self).contains_id(id) {
                old(self).entries@.remove(old(self).spec_idx(id))
            } else {
                old(self).entries@
            },
    {
        let ghost orig = *old(self);
        match self.find(id) {
            Some(i) => {
                self.entries.remove(i);
                proof {
                    let s1 = orig.entries@;
                    let s2 = self.entries@;
                    let ii = i as int;
                    // each surviving entry is one of the original entries
                    assert forall|k: int| 0 <= k < s2.len() implies s2[k] == (if k < ii {
                        s1[k]
                    } else {
                        s1[k + 1]
                    }) by {}
                    assert(self.wf());
                    assert forall|k: int| 0 <= k < s2.len() implies s2[k].0 != id by {
                        if k < ii {
                            assert(s1[k].0 != s1[ii].0);
                        } else {
                            assert(s1[ii].0 != s1[k + 1].0);
                        }
                    }
                    lemma_not_found(s2, id);
                    assert forall|c: u32| c != id implies final(self).spec_get(c) == orig.spec_get(c) by {
                        if orig.contains_id(c) {
                            let m = idx_of(s1, c);
                            lemma_idx_of(s1, c);
                            if m < ii {
                                lemma_found(s2, c, m);
                            } else {
                                assert(m != ii);
                                assert(s2[m - 1] == s1[m]);
                                lemma_found(s2, c, m - 1);
                            }
                        } else {
                            lemma_idx_of(s1, c);
                            lemma_not_found(s2, c);
                        }
                    }
                }
            },
            None => {},
        }
    }
}

/// Clamped addition of a signed delta, computed without overflow.
fn sat_add_exec(a: u32, d: i64) -> (r: u32)
    requires
        -(u32::MAX as i64) <= d <= u32::MAX as i64,
    ensures
        r == sat_add_u32(a, d as int),
{
    let s: i64 = a as i64 + d;
    if s < 0 {
        0
    } else if s > u32::MAX as i64 {
        u32::MAX
    } else {
        s as u32
    }
}

} // verus!
