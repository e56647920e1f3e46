//! Electoral seat apportionment over a hierarchy of regions.
//!
//! Votes recorded at leaf regions roll up to every ancestor region and to a
//! synthetic global root; pluggable district configurations react to
//! mutations and write seat assignments back through the tree.

pub mod interface;
pub mod methods;
pub mod models;
pub mod tree;
pub mod utils;

use vstd::prelude::*;

use crate::interface::{WithSeats, WithVotes};
use crate::methods::{get_method_function, method_alloc, method_errs, method_fits, Method};
use crate::models::Candidacy;
use crate::utils::{lemma_total_votes_mono, spec_total_votes};

verus! {

/// An electoral cutoff, kept as an exact fraction: a candidacy takes part
/// in apportionment only when its votes exceed `total * num / den`,
/// rounded down. A zero denominator reads as no cutoff at all.
#[derive(Debug, Clone, Copy, PartialEq, Eq, Structural)]
pub struct Cutoff {
    pub num: u32,
    pub den: u32,
}

impl Cutoff {
    pub fn new(num: u32, den: u32) -> (r: Cutoff)
        ensures
            r == (Cutoff { num, den }),
    {
        Cutoff { num, den }
    }

    /// The cutoff that excludes nothing.
    pub fn none() -> (r: Cutoff)
        ensures
            r == (Cutoff { num: 0u32, den: 1u32 }),
    {
        Cutoff { num: 0, den: 1 }
    }
}

/// The vote count a candidacy must exceed to take part.
pub open spec fn cutoff_votes(total: int, c: Cutoff) -> int {
    if c.den == 0 {
        0
    } else {
        total * c.num / (c.den as int)
    }
}

/// The votes of the candidacies above the cutoff among the first `n`, in
/// order.
pub open spec fn kept_upto(votes: Seq<u32>, cv: int, n: int) -> Seq<u32>
    decreases n,
{
    if n <= 0 {
        Seq::<u32>::empty()
    } else if votes[n - 1] > cv {
        kept_upto(votes, cv, n - 1).push(votes[n - 1])
    } else {
        kept_upto(votes, cv, n - 1)
    }
}

/// A kept candidacy's position among the kept: the prefix count.
pub proof fn lemma_kept_index(votes: Seq<u32>, cv: int, i: int, n: int)
    requires
        0 <= i < n,
        votes[i] > cv,
    ensures
        kept_upto(votes, cv, i).len() < kept_upto(votes, cv, n).len(),
        kept_upto(votes, cv, n)[kept_upto(votes, cv, i).len() as int] == votes[i],
        kept_upto(votes, cv, i + 1).len() == kept_upto(votes, cv, i).len() + 1,
    decreases n,
{
    if i == n - 1 {
    } else {
        lemma_kept_index(votes, cv, i, n - 1);
    }
}

pub proof fn lemma_kept_mono(votes: Seq<u32>, cv: int, n: int)
    ensures
        forall|k: int|
            0 <= k <= n ==> #[trigger] kept_upto(votes, cv, k).len() <= kept_upto(
                votes,
                cv,
                n,
            ).len(),
    decreases n,
{
    if n > 0 {
        lemma_kept_mono(votes, cv, n - 1);
        assert forall|k: int| 0 <= k <= n implies #[trigger] kept_upto(votes, cv, k).len()
            <= kept_upto(votes, cv, n).len() by {
            if k < n {
                assert(kept_upto(votes, cv, k).len() <= kept_upto(votes, cv, n - 1).len());
            }
        }
    }
}

/// What one flat apportionment hands each candidacy: seats per the
/// method if the candidacy clears the cutoff, zero otherwise.
pub open spec fn cutoff_alloc(
    votes: Seq<u32>,
    seats: u16,
    m: Method,
    c: Cutoff,
) -> Seq<int> {
    let total = spec_total_votes_of(votes);
    let cv = cutoff_votes(total, c);
    let f = kept_upto(votes, cv, votes.len() as int);
    Seq::new(
        votes.len(),
        |i: int| if votes[i] > cv {
            method_alloc(m, f, seats)[kept_upto(votes, cv, i).len() as int]
        } else {
            0
        },
    )
}

/// The total of a plain vote list.
pub open spec fn spec_total_votes_of(votes: Seq<u32>) -> int
    decreases votes.len(),
{
    if votes.len() == 0 {
        0
    } else {
        spec_total_votes_of(votes.drop_last()) + votes.last()
    }
}

/// Clear every seat, drop the candidacies at or below the cutoff, and
/// apportion the requested seats among the rest with the chosen method.
#[verifier::rlimit(100)]
pub fn compute_with_cutoff(results: &mut Vec<Candidacy>, seats: u16, method: Method, cutoff: Cutoff)
    -> (r: Result<(), &'static str>)
    requires
        spec_total_votes(old(results)@, old(results)@.len() as int) <= u32::MAX,
        ({
            let vs = Seq::new(old(results)@.len(), |i: int| old(results)@[i].spec_votes());
            let cv = cutoff_votes(spec_total_votes_of(vs), cutoff);
            method_fits(method, kept_upto(vs, cv, vs.len() as int), seats)
        }),
    ensures
        final(results)@.len() == old(results)@.len(),
        ({
            let vs = Seq::new(old(results)@.len(), |i: int| old(results)@[i].spec_votes());
            let cv = cutoff_votes(spec_total_votes_of(vs), cutoff);
            let f = kept_upto(vs, cv, vs.len() as int);
            match r {
                Ok(_) => !method_errs(method, f.len() as int, seats) && (forall|i: int|
                    0 <= i < old(results)@.len() ==> final(results)@[i] == old(results)@[i].with_seats(cutoff_alloc(vs, seats, method, cutoff)[i] as u16)),
                Err(e) => method_errs(method, f.len() as int, seats) && e@ == "EMPTY_RESULTS"@
                    && final(results)@ == old(results)@,
            }
        }),
{
    let ghost orig = results@;
    let ghost vs = Seq::new(results@.len(), |i: int| results@[i].spec_votes());
    let n = results.len();
    proof {
        lemma_total_votes_mono(orig, n as int);
        lemma_totals_agree(orig, n as int);
    }
    // the total and the cutoff line
    let mut total: u32 = 0;
    let mut j: usize = 0;
    while j < n
        invariant
            j <= n,
            n == results@.len(),
            results@ == orig,
            vs == Seq::new(orig.len(), |i: int| orig[i].spec_votes()),
            total == spec_total_votes(orig, j as int),
            spec_total_votes(orig, n as int) <= u32::MAX,
            forall|k: int|
                0 <= k <= n ==> spec_total_votes(orig, k) <= spec_total_votes(orig, n as int),
            forall|k: int| 0 <= k <= n ==> spec_total_votes(orig, k) >= 0,
        decreases n - j,
    {
        proof {
            assert(spec_total_votes(orig, j as int + 1) == spec_total_votes(orig, j as int)
                + orig[j as int].spec_votes());
        }
        total = total + results[j].get_votes();
        j = j + 1;
    }
    proof {
        crate::methods::divisor::lemma_mul_bound(
            total as int,
            cutoff.num as int,
            u32::MAX as int,
            u32::MAX as int,
        );
    }
    let cv64: u64 = if cutoff.den == 0 {
        0
    } else {
        total as u64 * cutoff.num as u64 / cutoff.den as u64
    };
    let ghost cv = cutoff_votes(spec_total_votes_of(vs), cutoff);
    proof {
        assert(cv64 == cv);
    }
    // gather the candidacies above the line
    let mut temp: Vec<Candidacy> = Vec::new();
    let mut j2: usize = 0;
    while j2 < n
        invariant
            j2 <= n,
            n == results@.len(),
            results@ == orig,
            vs == Seq::new(orig.len(), |i: int| orig[i].spec_votes()),
            cv64 == cv,
            cv == cutoff_votes(spec_total_votes_of(vs), cutoff),
            temp@.len() == kept_upto(vs, cv, j2 as int).len(),
            forall|k: int|
                0 <= k < temp@.len() ==> #[trigger] temp@[k].spec_votes() == kept_upto(
                    vs,
                    cv,
                    j2 as int,
                )[k],
        decreases n - j2,
    {
        let v = results[j2].get_votes();
        if v as u64 > cv64 {
            temp.push(Candidacy::new(v, 0));
        }
        j2 = j2 + 1;
    }
    let ghost f = kept_upto(vs, cv, n as int);
    proof {
        assert(Seq::new(temp@.len(), |i: int| temp@[i].spec_votes()) =~= f);
    }
    // apportion among them
    let res = get_method_function(method, &mut temp, seats);
    match res {
        Ok(_) => {},
        Err(e) => {
            return Err(e);
        },
    }
    // write the seats back, zero for the excluded
    let ghost alloc = method_alloc(
        method,
        f,
        seats,
    );
    let mut rk: usize = 0;
    let mut j3: usize = 0;
    while j3 < n
        invariant
            j3 <= n,
            n == orig.len(),
            results@.len() == n,
            vs == Seq::new(orig.len(), |i: int| orig[i].spec_votes()),
            cv64 == cv,
            cv == cutoff_votes(spec_total_votes_of(vs), cutoff),
            f == kept_upto(vs, cv, n as int),
            temp@.len() == f.len(),
            forall|k: int|
                0 <= k < temp@.len() ==> #[trigger] temp@[k].spec_seats() == alloc[k] as u16,
            alloc == method_alloc(method, f, seats),
            rk == kept_upto(vs, cv, j3 as int).len(),
            forall|i: int|
                0 <= i < j3 ==> #[trigger] results@[i] == orig[i].with_seats(
                    cutoff_alloc(vs, seats, method, cutoff)[i] as u16,
                ),
            forall|i: int| j3 <= i < n ==> #[trigger] results@[i] == orig[i],
        decreases n - j3,
    {
        let v = results[j3].get_votes();
        proof {
            assert(v == vs[j3 as int]);
            lemma_kept_mono(vs, cv, n as int);
        }
        if v as u64 > cv64 {
            proof {
                lemma_kept_index(vs, cv, j3 as int, n as int);
            }
            proof {
                assert(rk < temp@.len());
            }
            let s = temp[rk].get_seats();
            let e = &mut results[j3];
            e.set_seats(s);
            proof {
                assert(cutoff_alloc(vs, seats, method, cutoff)[j3 as int] == alloc[rk as int]);
            }
            let tl = temp.len();
            proof {
                assert(rk < tl);
            }
            rk = rk + 1;
        } else {
            let e = &mut results[j3];
            e.set_seats(0);
            proof {
                assert(cutoff_alloc(vs, seats, method, cutoff)[j3 as int] == 0);
                assert(kept_upto(vs, cv, j3 as int + 1).len() == kept_upto(
                    vs,
                    cv,
                    j3 as int,
                ).len());
            }
        }
        j3 = j3 + 1;
    }
    Ok(())
}

/// Decide, before computing, whether the selected method's input bounds
/// hold for this candidacy list once the cutoff is applied. Only the
/// largest-remainder methods have bounds to check.
#[verifier::rlimit(100)]
pub fn fits_ok(cands: &Vec<Candidacy>, seats: u16, method: Method, cutoff: Cutoff) -> (b: bool)
    requires
        spec_total_votes(cands@, cands@.len() as int) <= u32::MAX,
    ensures
        ({
            let vs = Seq::new(cands@.len(), |i: int| cands@[i].spec_votes());
            let cv = cutoff_votes(spec_total_votes_of(vs), cutoff);
            b == method_fits(method, kept_upto(vs, cv, vs.len() as int), seats)
        }),
{
    match method {
        Method::HARE | Method::DROOP | Method::HAGENBASCHBISCHOFF
            | Method::IMPERIALIQUOTIENT => {},
        _ => {
            return true;
        },
    }
    let ghost orig = cands@;
    let ghost vs = Seq::new(cands@.len(), |i: int| cands@[i].spec_votes());
    let n = cands.len();
    proof {
        lemma_total_votes_mono(orig, n as int);
        lemma_totals_agree(orig, n as int);
    }
    let mut total: u32 = 0;
    let mut j: usize = 0;
    while j < n
        invariant
            j <= n,
            n == cands@.len(),
            cands@ == orig,
            vs == Seq::new(orig.len(), |i: int| orig[i].spec_votes()),
            total == spec_total_votes(orig, j as int),
            spec_total_votes(orig, n as int) <= u32::MAX,
            forall|k: int|
                0 <= k <= n ==> spec_total_votes(orig, k) <= spec_total_votes(orig, n as int),
            forall|k: int| 0 <= k <= n ==> spec_total_votes(orig, k) >= 0,
        decreases n - j,
    {
        proof {
            assert(spec_total_votes(orig, j as int + 1) == spec_total_votes(orig, j as int)
                + orig[j as int].spec_votes());
        }
        total = total + cands[j].get_votes();
        j = j + 1;
    }
    proof {
        crate::methods::divisor::lemma_mul_bound(
            total as int,
            cutoff.num as int,
            u32::MAX as int,
            u32::MAX as int,
        );
    }
    let cv64: u64 = if cutoff.den == 0 {
        0
    } else {
        total as u64 * cutoff.num as u64 / cutoff.den as u64
    };
    let ghost cv = cutoff_votes(spec_total_votes_of(vs), cutoff);
    proof {
        assert(cv64 == cv);
    }
    let mut kv: Vec<u32> = Vec::new();
    let mut j2: usize = 0;
    while j2 < n
        invariant
            j2 <= n,
            n == cands@.len(),
            cands@ == orig,
            vs == Seq::new(orig.len(), |i: int| orig[i].spec_votes()),
            cv64 == cv,
            kv@ =~= kept_upto(vs, cv, j2 as int),
        decreases n - j2,
    {
        let v = cands[j2].get_votes();
        if v as u64 > cv64 {
            kv.push(v);
        }
        j2 = j2 + 1;
    }
    let ghost f = kept_upto(vs, cv, n as int);
    proof {
        assert(kv@ =~= f);
    }
    // the kept candidacies' own total
    let m = kv.len();
    let mut kt: u64 = 0;
    let mut j3: usize = 0;
    proof {
        crate::methods::remainder::lemma_votes_total_mono(kv@, m as int);
    }
    while j3 < m
        invariant
            j3 <= m,
            m == kv@.len(),
            kv@ == f,
            vs == Seq::new(cands@.len(), |i: int| cands@[i].spec_votes()),
            cv == cutoff_votes(spec_total_votes_of(vs), cutoff),
            f == kept_upto(vs, cv, vs.len() as int),
            method_fits(method, f, seats) == crate::methods::remainder::rem_fits_u16(
                method,
                f,
                seats,
            ),
            kt == crate::methods::remainder::votes_total(kv@, j3 as int),
            kt <= u32::MAX,
        decreases m - j3,
    {
        proof {
            assert(crate::methods::remainder::votes_total(kv@, j3 as int + 1)
                == crate::methods::remainder::votes_total(kv@, j3 as int) + kv@[j3 as int]);
        }
        kt = kt + kv[j3] as u64;
        if kt > u32::MAX as u64 {
            proof {
                crate::methods::remainder::lemma_votes_total_mono(kv@, m as int);
                assert(crate::methods::remainder::votes_total(kv@, j3 as int + 1)
                    <= crate::methods::remainder::votes_total(kv@, m as int));
                assert(!crate::methods::remainder::rem_fits_u16(method, f, seats));
            }
            return false;
        }
        j3 = j3 + 1;
    }
    let (qn, qd): (u64, u64) = crate::methods::remainder::quota_exec(method, kt as u32, seats);
    let mut j4: usize = 0;
    while j4 < m
        invariant
            j4 <= m,
            m == kv@.len(),
            kv@ == f,
            vs == Seq::new(cands@.len(), |i: int| cands@[i].spec_votes()),
            cv == cutoff_votes(spec_total_votes_of(vs), cutoff),
            f == kept_upto(vs, cv, vs.len() as int),
            method_fits(method, f, seats) == crate::methods::remainder::rem_fits_u16(
                method,
                f,
                seats,
            ),
            kt == crate::methods::remainder::votes_total(kv@, m as int),
            kt <= u32::MAX,
            qn == crate::methods::remainder::quota_num(method, kt as int, seats),
            qd == crate::methods::remainder::quota_den(method, seats),
            qd <= 0x1_0000,
            forall|k: int|
                0 <= k < j4 ==> #[trigger] crate::methods::remainder::int_part(
                    method,
                    kt as int,
                    kv@[k],
                    seats,
                ) + seats <= u16::MAX,
        decreases m - j4,
    {
        let v = kv[j4];
        proof {
            crate::methods::divisor::lemma_mul_bound(v as int, qd as int, u32::MAX as int, 0x1_0000);
        }
        let ip64: u64 = if qn == 0 {
            0
        } else {
            v as u64 * qd / qn
        };
        proof {
            assert(ip64 == crate::methods::remainder::int_part(method, kt as int, kv@[j4 as int], seats));
        }
        if ip64 > (u16::MAX - seats) as u64 {
            proof {
                assert(crate::methods::remainder::int_part(method, kt as int, kv@[j4 as int], seats)
                    + seats > u16::MAX);
                assert(!crate::methods::remainder::rem_fits_u16(method, f, seats));
            }
            return false;
        }
        j4 = j4 + 1;
    }
    proof {
        assert(crate::methods::remainder::rem_fits_u16(method, f, seats));
    }
    true
}

/// The two ways of summing a candidacy list agree.
pub proof fn lemma_totals_agree(s: Seq<Candidacy>, n: int)
    requires
        0 <= n <= s.len(),
    ensures
        spec_total_votes_of(
            Seq::new(s.len(), |i: int| s[i].spec_votes()).take(n),
        ) == spec_total_votes(s, n),
        n == s.len() ==> spec_total_votes_of(Seq::new(s.len(), |i: int| s[i].spec_votes()))
            == spec_total_votes(s, n),
    decreases n,
{
    let vs = Seq::new(s.len(), |i: int| s[i].spec_votes());
    if n > 0 {
        lemma_totals_agree(s, n - 1);
        assert(vs.take(n).drop_last() =~= vs.take(n - 1));
        assert(vs.take(n).last() == s[n - 1].spec_votes());
        assert(spec_total_votes_of(vs.take(n)) == spec_total_votes_of(vs.take(n - 1)) + vs.take(
            n,
        ).last());
    }
    if n == s.len() {
        assert(vs.take(n) =~= vs);
    }
}

} // verus!
