//! Largest-remainder methods: each candidacy first receives the integer
//! part of its votes divided by a quota, and the seats still left are
//! then handed out one at a time by largest fractional remainder, ties
//! going to the last candidacy in list order. The quota is kept as an
//! exact rational. As in the original formulas, the integer parts are
//! assigned in full even when they already exceed the requested seat
//! count; the leftover counter merely stops at zero.

use vstd::prelude::*;

use crate::interface::{WithSeats, WithVotes};
use crate::methods::divisor::{read_votes, write_alloc};
use crate::methods::Method;

verus! {

/// The total of the first `n` vote counts.
pub open spec fn votes_total(votes: Seq<u32>, n: int) -> int
    decreases n,
{
    if n <= 0 {
        0
    } else {
        votes_total(votes, n - 1) + votes[n - 1]
    }
}

pub proof fn lemma_votes_total_mono(votes: Seq<u32>, n: int)
    ensures
        forall|k: int| 0 <= k <= n ==> votes_total(votes, k) <= votes_total(votes, n),
        forall|k: int| 0 <= k <= n ==> votes_total(votes, k) >= 0,
    decreases n,
{
    if n > 0 {
        lemma_votes_total_mono(votes, n - 1);
        assert forall|k: int| 0 <= k <= n implies votes_total(votes, k) <= votes_total(
            votes,
            n,
        ) && votes_total(votes, k) >= 0 by {
            if k < n {
                assert(votes_total(votes, k) <= votes_total(votes, n - 1));
                assert(votes_total(votes, k) >= 0);
            } else {
                assert(votes_total(votes, n - 1) >= 0);
            }
        }
    }
}

/// The quota's numerator: the quota is `quota_num / quota_den`.
pub open spec fn quota_num(m: Method, total: int, seats: u16) -> int {
    match m {
        Method::HARE => total,
        Method::DROOP => total / (seats + 1) + 1,
        Method::HAGENBASCHBISCHOFF => total,
        Method::IMPERIALIQUOTIENT => total / (seats + 2) + 1,
        _ => total,
    }
}

/// The quota's denominator.
pub open spec fn quota_den(m: Method, seats: u16) -> int {
    match m {
        Method::HARE => seats as int,
        Method::DROOP => 1,
        Method::HAGENBASCHBISCHOFF => seats + 1,
        Method::IMPERIALIQUOTIENT => 1,
        _ => 1,
    }
}

/// The integer part of one candidacy's votes divided by the quota. A
/// zero quota (no votes at all) yields zero.
pub open spec fn int_part(m: Method, total: int, v: u32, seats: u16) -> int {
    let qn = quota_num(m, total, seats);
    let qd = quota_den(m, seats);
    if qn <= 0 {
        0
    } else {
        v * qd / qn
    }
}

/// The seats still to distribute after handing out the first `k` integer
/// parts; clamped at zero, never reduced below it.
pub open spec fn left_after(m: Method, total: int, votes: Seq<u32>, seats: u16, k: int) -> int
    decreases k,
{
    if k <= 0 {
        seats as int
    } else {
        let l = left_after(m, total, votes, seats, k - 1);
        let ip = int_part(m, total, votes[k - 1], seats);
        if ip < l {
            l - ip
        } else {
            0
        }
    }
}

pub proof fn lemma_left_after_bound(m: Method, total: int, votes: Seq<u32>, seats: u16, k: int)
    ensures
        0 <= left_after(m, total, votes, seats, k) <= seats,
    decreases k,
{
    if k > 0 {
        lemma_left_after_bound(m, total, votes, seats, k - 1);
    }
}

/// Whether candidacy 2's remainder ranks at least as high as candidacy
/// 1's, after each has already taken some leftover seats. With a zero
/// quota every remainder is equal (and the last candidacy wins ties).
pub open spec fn rank_ge(
    m: Method,
    total: int,
    seats: u16,
    v2: u32,
    t2: int,
    v1: u32,
    t1: int,
) -> bool {
    let qn = quota_num(m, total, seats);
    let qd = quota_den(m, seats);
    if qn <= 0 {
        true
    } else {
        (v2 * qd) % qn - t2 * qn >= (v1 * qd) % qn - t1 * qn
    }
}

/// The index with the best-ranked remainder among the first `k`, ties
/// going to the later one.
pub open spec fn rem_best(
    m: Method,
    total: int,
    seats: u16,
    votes: Seq<u32>,
    t: Seq<int>,
    k: int,
) -> int
    decreases k,
{
    if k <= 1 {
        0
    } else {
        let b = rem_best(m, total, seats, votes, t, k - 1);
        if rank_ge(m, total, seats, votes[k - 1], t[k - 1], votes[b], t[b]) {
            k - 1
        } else {
            b
        }
    }
}

pub proof fn lemma_rem_best_bound(
    m: Method,
    total: int,
    seats: u16,
    votes: Seq<u32>,
    t: Seq<int>,
    k: int,
)
    requires
        k >= 1,
    ensures
        0 <= rem_best(m, total, seats, votes, t, k) < k,
    decreases k,
{
    if k > 1 {
        lemma_rem_best_bound(m, total, seats, votes, t, k - 1);
    }
}

/// How many leftover seats each candidacy has taken after the given
/// number of rounds.
pub open spec fn rem_extra(
    m: Method,
    total: int,
    seats: u16,
    votes: Seq<u32>,
    rounds: nat,
) -> Seq<int>
    decreases rounds,
{
    if rounds == 0 || votes.len() == 0 {
        Seq::new(votes.len(), |i: int| 0int)
    } else {
        let prev = rem_extra(m, total, seats, votes, (rounds - 1) as nat);
        let w = rem_best(m, total, seats, votes, prev, votes.len() as int);
        prev.update(w, prev[w] + 1)
    }
}

pub proof fn lemma_rem_extra_bound(
    m: Method,
    total: int,
    seats: u16,
    votes: Seq<u32>,
    rounds: nat,
)
    ensures
        rem_extra(m, total, seats, votes, rounds).len() == votes.len(),
        forall|i: int|
            0 <= i < votes.len() ==> 0 <= #[trigger] rem_extra(m, total, seats, votes, rounds)[i]
                <= rounds,
    decreases rounds,
{
    if rounds > 0 && votes.len() > 0 {
        lemma_rem_extra_bound(m, total, seats, votes, (rounds - 1) as nat);
        let prev = rem_extra(m, total, seats, votes, (rounds - 1) as nat);
        let w = rem_best(m, total, seats, votes, prev, votes.len() as int);
        lemma_rem_best_bound(m, total, seats, votes, prev, votes.len() as int);
        assert(rem_extra(m, total, seats, votes, rounds) == prev.update(w, prev[w] + 1));
        assert(prev.update(w, prev[w] + 1).len() == prev.len());
    }
}

/// What a largest-remainder method assigns: integer part plus leftover
/// rounds won.
pub open spec fn rem_alloc(m: Method, votes: Seq<u32>, seats: u16) -> Seq<int> {
    let total = votes_total(votes, votes.len() as int);
    let left = left_after(m, total, votes, seats, votes.len() as int);
    let extra = rem_extra(m, total, seats, votes, left as nat);
    Seq::new(votes.len(), |i: int| int_part(m, total, votes[i], seats) + extra[i])
}

/// The bounds a largest-remainder run needs: a representable vote total,
/// and integer parts that leave room for the leftover seats in a 16-bit
/// seat count.
pub open spec fn rem_fits_u16(m: Method, votes: Seq<u32>, seats: u16) -> bool {
    &&& votes_total(votes, votes.len() as int) <= u32::MAX
    &&& (forall|i: int|
        0 <= i < votes.len() ==> #[trigger] int_part(
            m,
            votes_total(votes, votes.len() as int),
            votes[i],
            seats,
        ) + seats <= u16::MAX)
}

/// The quota numerator and denominator for a computed total.
pub(crate) fn quota_exec(m: Method, total: u32, seats: u16) -> (q: (u64, u64))
    ensures
        q.0 == quota_num(m, total as int, seats),
        q.1 == quota_den(m, seats),
        q.0 <= u32::MAX as u64 + 1,
        q.1 <= 0x1_0000,
{
    match m {
        Method::HARE => (total as u64, seats as u64),
        Method::DROOP => (total as u64 / (seats as u64 + 1) + 1, 1),
        Method::HAGENBASCHBISCHOFF => (total as u64, seats as u64 + 1),
        Method::IMPERIALIQUOTIENT => (total as u64 / (seats as u64 + 2) + 1, 1),
        _ => (total as u64, 1),
    }
}

/// Compute the largest-remainder allocation for a vote list.
#[verifier::rlimit(60)]
fn remainder_allocate(m: Method, votes: &Vec<u32>, seats: u16) -> (alloc: Vec<u16>)
    requires
        votes@.len() > 0,
        rem_fits_u16(m, votes@, seats),
    ensures
        alloc@.len() == votes@.len(),
        forall|i: int|
            0 <= i < votes@.len() ==> #[trigger] alloc@[i] as int == rem_alloc(m, votes@, seats)[i],
{
    let n = votes.len();
    let ghost gtotal = votes_total(votes@, n as int);
    proof {
        lemma_votes_total_mono(votes@, n as int);
    }
    // the vote total
    let mut total: u32 = 0;
    let mut j: usize = 0;
    while j < n
        invariant
            j <= n,
            n == votes@.len(),
            total == votes_total(votes@, j as int),
            votes_total(votes@, n as int) <= u32::MAX,
            forall|k: int|
                0 <= k <= n ==> votes_total(votes@, k) <= votes_total(votes@, n as int),
            forall|k: int| 0 <= k <= n ==> votes_total(votes@, k) >= 0,
        decreases n - j,
    {
        proof {
            assert(votes_total(votes@, j as int + 1) == votes_total(votes@, j as int) + votes@[j as int]);
        }
        total = total + votes[j];
        j = j + 1;
    }
    let (qn, qd): (u64, u64) = quota_exec(m, total, seats);
    // integer parts
    let mut ips: Vec<u16> = Vec::new();
    let mut j2: usize = 0;
    while j2 < n
        invariant
            j2 <= n,
            n == votes@.len(),
            qn == quota_num(m, gtotal, seats),
            qd == quota_den(m, seats),
            qn <= u32::MAX as u64 + 1,
            qd <= 0x1_0000,
            gtotal == votes_total(votes@, n as int),
            rem_fits_u16(m, votes@, seats),
            ips@.len() == j2,
            forall|i: int|
                0 <= i < j2 ==> #[trigger] ips@[i] as int == int_part(m, gtotal, votes@[i], seats),
        decreases n - j2,
    {
        let v = votes[j2];
        proof {
            crate::methods::divisor::lemma_mul_bound(v as int, qd as int, u32::MAX as int, 0x1_0000);
        }
        let ip64: u64 = if qn == 0 {
            0
        } else {
            v as u64 * qd / qn
        };
        proof {
            assert(int_part(m, gtotal, votes@[j2 as int], seats) + seats <= u16::MAX);
            assert(ip64 == int_part(m, gtotal, votes@[j2 as int], seats)) by {
                if qn > 0 {
                    assert(v as u64 * qd == v * qd);
                }
            }
        }
        ips.push(ip64 as u16);
        j2 = j2 + 1;
    }
    // seats left once the integer parts are handed out
    let mut left: u16 = seats;
    let mut j3: usize = 0;
    while j3 < n
        invariant
            j3 <= n,
            n == votes@.len(),
            gtotal == votes_total(votes@, n as int),
            ips@.len() == n,
            forall|i: int|
                0 <= i < n ==> #[trigger] ips@[i] as int == int_part(m, gtotal, votes@[i], seats),
            left == left_after(m, gtotal, votes@, seats, j3 as int),
        decreases n - j3,
    {
        let ip = ips[j3];
        if ip < left {
            left = left - ip;
        } else {
            left = 0;
        }
        j3 = j3 + 1;
    }
    // distribute the leftovers by largest remainder
    let ghost gleft = left_after(m, gtotal, votes@, seats, n as int);
    proof {
        lemma_left_after_bound(m, gtotal, votes@, seats, n as int);
    }
    let mut extra: Vec<u16> = Vec::new();
    let mut j4: usize = 0;
    while j4 < n
        invariant
            j4 <= n,
            extra@ =~= Seq::new(j4 as nat, |i: int| 0u16),
        decreases n - j4,
    {
        extra.push(0);
        proof {
            assert(extra@ =~= Seq::new(j4 as nat + 1, |i: int| 0u16));
        }
        j4 = j4 + 1;
    }
    let ghost extras0 = Seq::new(n as nat, |i: int| 0int);
    proof {
        assert(extras0 =~= rem_extra(m, gtotal, seats, votes@, 0));
        assert forall|i: int| 0 <= i < n implies extra@[i] as int == extras0[i] by {}
    }
    let mut round: u16 = 0;
    while round < left
        invariant
            round <= left,
            n == votes@.len(),
            n > 0,
            qn == quota_num(m, gtotal, seats),
            qd == quota_den(m, seats),
            qn <= u32::MAX as u64 + 1,
            qd <= 0x1_0000,
            gtotal == votes_total(votes@, n as int),
            left == gleft,
            gleft == left_after(m, gtotal, votes@, seats, n as int),
            0 <= gleft <= seats,
            extra@.len() == n,
            forall|i: int|
                0 <= i < n ==> #[trigger] extra@[i] as int == rem_extra(
                    m,
                    gtotal,
                    seats,
                    votes@,
                    round as nat,
                )[i],
        decreases left - round,
    {
        let ghost tcur = rem_extra(m, gtotal, seats, votes@, round as nat);
        proof {
            lemma_rem_extra_bound(m, gtotal, seats, votes@, round as nat);
        }
        let mut best: usize = 0;
        let mut j5: usize = 1;
        while j5 < n
            invariant
                1 <= j5 <= n,
                n == votes@.len(),
                extra@.len() == n,
                qn == quota_num(m, gtotal, seats),
                qd == quota_den(m, seats),
                qn <= u32::MAX as u64 + 1,
                qd <= 0x1_0000,
                forall|i: int| 0 <= i < n ==> #[trigger] extra@[i] as int == tcur[i],
                best < j5,
                best as int == rem_best(m, gtotal, seats, votes@, tcur, j5 as int),
            decreases n - j5,
        {
            if rank_ge_exec(qn, qd, votes[j5], extra[j5], votes[best], extra[best]) {
                proof {
                    assert(rank_ge(
                        m,
                        gtotal,
                        seats,
                        votes@[j5 as int],
                        tcur[j5 as int],
                        votes@[best as int],
                        tcur[best as int],
                    ));
                }
                best = j5;
            } else {
                proof {
                    assert(!rank_ge(
                        m,
                        gtotal,
                        seats,
                        votes@[j5 as int],
                        tcur[j5 as int],
                        votes@[best as int],
                        tcur[best as int],
                    ));
                }
            }
            j5 = j5 + 1;
        }
        proof {
            lemma_rem_best_bound(m, gtotal, seats, votes@, tcur, n as int);
        }
        let cur = extra[best];
        proof {
            assert(cur as int == tcur[best as int]);
            assert(cur <= round < left <= u16::MAX);
        }
        extra.set(best, cur + 1);
        proof {
            let tnext = rem_extra(m, gtotal, seats, votes@, round as nat + 1);
            assert(tnext == tcur.update(
                rem_best(m, gtotal, seats, votes@, tcur, n as int),
                tcur[rem_best(m, gtotal, seats, votes@, tcur, n as int)] + 1,
            ));
            assert forall|i: int| 0 <= i < n implies extra@[i] as int == tnext[i] by {}
        }
        round = round + 1;
    }
    // combine
    let mut alloc: Vec<u16> = Vec::new();
    let mut j6: usize = 0;
    proof {
        lemma_rem_extra_bound(m, gtotal, seats, votes@, gleft as nat);
    }
    while j6 < n
        invariant
            j6 <= n,
            n == votes@.len(),
            ips@.len() == n,
            extra@.len() == n,
            gtotal == votes_total(votes@, n as int),
            gleft == left_after(m, gtotal, votes@, seats, n as int),
            0 <= gleft <= seats,
            rem_fits_u16(m, votes@, seats),
            forall|i: int|
                0 <= i < n ==> #[trigger] ips@[i] as int == int_part(m, gtotal, votes@[i], seats),
            forall|i: int|
                0 <= i < n ==> #[trigger] extra@[i] as int == rem_extra(
                    m,
                    gtotal,
                    seats,
                    votes@,
                    gleft as nat,
                )[i],
            forall|i: int|
                0 <= i < votes@.len() ==> 0 <= #[trigger] rem_extra(
                    m,
                    gtotal,
                    seats,
                    votes@,
                    gleft as nat,
                )[i] <= gleft,
            alloc@.len() == j6,
            forall|i: int|
                0 <= i < j6 ==> #[trigger] alloc@[i] as int == rem_alloc(m, votes@, seats)[i],
        decreases n - j6,
    {
        proof {
            assert(int_part(m, gtotal, votes@[j6 as int], seats) + seats <= u16::MAX);
            assert(extra@[j6 as int] as int <= gleft <= seats);
            assert(rem_alloc(m, votes@, seats)[j6 as int] == int_part(
                m,
                gtotal,
                votes@[j6 as int],
                seats,
            ) + rem_extra(m, gtotal, seats, votes@, gleft as nat)[j6 as int]);
        }
        let s: u16 = ips[j6] + extra[j6];
        alloc.push(s);
        j6 = j6 + 1;
    }
    alloc
}

/// Exact comparison of two remainders.
fn rank_ge_exec(qn: u64, qd: u64, v2: u32, t2: u16, v1: u32, t1: u16) -> (b: bool)
    requires
        qn <= u32::MAX as u64 + 1,
        qd <= 0x1_0000,
    ensures
        ({
            let q = qn as int;
            b == if q <= 0 {
                true
            } else {
                (v2 * qd) % q - t2 * q >= (v1 * qd) % q - t1 * q
            }
        }),
{
    if qn == 0 {
        true
    } else {
        proof {
            crate::methods::divisor::lemma_mul_bound(v2 as int, qd as int, u32::MAX as int, 0x1_0000);
            crate::methods::divisor::lemma_mul_bound(v1 as int, qd as int, u32::MAX as int, 0x1_0000);
            crate::methods::divisor::lemma_mul_bound(t2 as int, qn as int, 0x1_0000, 0x1_0000_0000);
            crate::methods::divisor::lemma_mul_bound(t1 as int, qn as int, 0x1_0000, 0x1_0000_0000);
        }
        let p2: u64 = v2 as u64 * qd;
        let p1: u64 = v1 as u64 * qd;
        let r2: i64 = (p2 % qn) as i64 - t2 as i64 * qn as i64;
        let r1: i64 = (p1 % qn) as i64 - t1 as i64 * qn as i64;
        r2 >= r1
    }
}

/// Shared body of the largest-remainder methods.
fn compute_remainder_m<T: WithVotes + WithSeats>(results: &mut Vec<T>, seats: u16, m: Method) -> (r:
    Result<(), &'static str>)
    requires
        rem_fits_u16(
            m,
            Seq::new(old(results)@.len(), |i: int| old(results)@[i].spec_votes()),
            seats,
        ),
    ensures
        final(results)@.len() == old(results)@.len(),
        ({
            let vs = Seq::new(old(results)@.len(), |i: int| old(results)@[i].spec_votes());
            match r {
                Ok(_) => !(old(results)@.len() == 0 && seats > 0) && (forall|i: int|
                    0 <= i < old(results)@.len() ==> final(results)@[i] == old(results)@[i].with_seats(rem_alloc(m, vs, seats)[i] as u16)),
                Err(e) => old(results)@.len() == 0 && seats > 0 && e@ == "EMPTY_RESULTS"@ && final(results)@ == old(results)@,
            }
        }),
{
    let n = results.len();
    if n == 0 {
        if seats > 0 {
            return Err("EMPTY_RESULTS");
        } else {
            return Ok(());
        }
    }
    let vs = read_votes(results);
    let alloc = remainder_allocate(m, &vs, seats);
    write_alloc(results, &alloc);
    Ok(())
}

/// Hare-Niemeyer: quota is total divided by the seat count.
pub fn compute_hare<T: WithVotes + WithSeats>(results: &mut Vec<T>, seats: u16) -> (r: Result<
    (),
    &'static str,
>)
    requires
        rem_fits_u16(
            Method::HARE,
            Seq::new(old(results)@.len(), |i: int| old(results)@[i].spec_votes()),
            seats,
        ),
    ensures
        final(results)@.len() == old(results)@.len(),
        ({
            let vs = Seq::new(old(results)@.len(), |i: int| old(results)@[i].spec_votes());
            match r {
                Ok(_) => !(old(results)@.len() == 0 && seats > 0) && (forall|i: int|
                    0 <= i < old(results)@.len() ==> final(results)@[i] == old(results)@[i].with_seats(rem_alloc(Method::HARE, vs, seats)[i] as u16)),
                Err(e) => old(results)@.len() == 0 && seats > 0 && e@ == "EMPTY_RESULTS"@ && final(results)@ == old(results)@,
            }
        }),
{
    compute_remainder_m(results, seats, Method::HARE)
}

/// Droop: quota is one more than the total divided by seats plus one.
pub fn compute_droop<T: WithVotes + WithSeats>(results: &mut Vec<T>, seats: u16) -> (r: Result<
    (),
    &'static str,
>)
    requires
        rem_fits_u16(
            Method::DROOP,
            Seq::new(old(results)@.len(), |i: int| old(results)@[i].spec_votes()),
            seats,
        ),
    ensures
        final(results)@.len() == old(results)@.len(),
        ({
            let vs = Seq::new(old(results)@.len(), |i: int| old(results)@[i].spec_votes());
            match r {
                Ok(_) => !(old(results)@.len() == 0 && seats > 0) && (forall|i: int|
                    0 <= i < old(results)@.len() ==> final(results)@[i] == old(results)@[i].with_seats(rem_alloc(Method::DROOP, vs, seats)[i] as u16)),
                Err(e) => old(results)@.len() == 0 && seats > 0 && e@ == "EMPTY_RESULTS"@ && final(results)@ == old(results)@,
            }
        }),
{
    compute_remainder_m(results, seats, Method::DROOP)
}

/// Hagenbach-Bischoff: quota is the total divided by seats plus one.
pub fn compute_hagenbach_bischoff<T: WithVotes + WithSeats>(results: &mut Vec<T>, seats: u16) -> (r:
    Result<(), &'static str>)
    requires
        rem_fits_u16(
            Method::HAGENBASCHBISCHOFF,
            Seq::new(old(results)@.len(), |i: int| old(results)@[i].spec_votes()),
            seats,
        ),
    ensures
        final(results)@.len() == old(results)@.len(),
        ({
            let vs = Seq::new(old(results)@.len(), |i: int| old(results)@[i].spec_votes());
            match r {
                Ok(_) => !(old(results)@.len() == 0 && seats > 0) && (forall|i: int|
                    0 <= i < old(results)@.len() ==> final(results)@[i] == old(results)@[i].with_seats(rem_alloc(Method::HAGENBASCHBISCHOFF, vs, seats)[i] as u16)),
                Err(e) => old(results)@.len() == 0 && seats > 0 && e@ == "EMPTY_RESULTS"@ && final(results)@ == old(results)@,
            }
        }),
{
    compute_remainder_m(results, seats, Method::HAGENBASCHBISCHOFF)
}

/// Imperiali quotient: quota is one more than the total divided by seats
/// plus two.
pub fn compute_imperiali_quotient<T: WithVotes + WithSeats>(results: &mut Vec<T>, seats: u16) -> (r:
    Result<(), &'static str>)
    requires
        rem_fits_u16(
            Method::IMPERIALIQUOTIENT,
            Seq::new(old(results)@.len(), |i: int| old(results)@[i].spec_votes()),
            seats,
        ),
    ensures
        final(results)@.len() == old(results)@.len(),
        ({
            let vs = Seq::new(old(results)@.len(), |i: int| old(results)@[i].spec_votes());
            match r {
                Ok(_) => !(old(results)@.len() == 0 && seats > 0) && (forall|i: int|
                    0 <= i < old(results)@.len() ==> final(results)@[i] == old(results)@[i].with_seats(rem_alloc(Method::IMPERIALIQUOTIENT, vs, seats)[i] as u16)),
                Err(e) => old(results)@.len() == 0 && seats > 0 && e@ == "EMPTY_RESULTS"@ && final(results)@ == old(results)@,
            }
        }),
{
    compute_remainder_m(results, seats, Method::IMPERIALIQUOTIENT)
}

} // verus!
