//! Divisor (highest-quotient) methods: each seat goes, one round at a
//! time, to the candidacy with the greatest quotient of its votes by a
//! divisor of its current seat count. Quotients are compared exactly, by
//! cross-multiplication; a zero divisor counts as an infinite quotient,
//! and a zero-by-zero quotient outranks everything, ties going to the
//! last candidacy in list order.

use vstd::prelude::*;

use crate::interface::{WithSeats, WithVotes};
use crate::methods::Method;

verus! {

/// The product of two bounded non-negative numbers is bounded by the
/// product of the bounds.
pub proof fn lemma_mul_bound(a: int, b: int, amax: int, bmax: int)
    requires
        0 <= a <= amax,
        0 <= b <= bmax,
    ensures
        0 <= a * b <= amax * bmax,
{
    assert(0 <= a * b <= amax * bmax) by (nonlinear_arith)
        requires
            0 <= a <= amax,
            0 <= b <= bmax,
    ;
}

/// The quotient's numerator under the given method.
pub open spec fn div_num(m: Method, v: u32) -> int {
    if m is HUNTINGTONHILL {
        v * v
    } else {
        v as int
    }
}

/// The quotient's denominator under the given method, from the seats won
/// so far.
pub open spec fn div_den(m: Method, s: u16) -> int {
    match m {
        Method::DHONDT => s + 1,
        Method::SAINTELAGUE => 2 * s + 1,
        Method::ADAMS => s as int,
        Method::IMPERIALI => s + 2,
        Method::HUNTINGTONHILL => s * (s + 1),
        Method::DANISH => 3 * s + 1,
        _ => s + 1,
    }
}

/// The rank class of a quotient: finite, infinite (positive votes over a
/// zero divisor), or the zero-by-zero case that outranks everything.
pub open spec fn quo_class(num: int, den: int) -> int {
    if den > 0 {
        0
    } else if num > 0 {
        1
    } else {
        2
    }
}

/// Whether candidacy 2's quotient ranks at least as high as candidacy
/// 1's.
pub open spec fn quo_ge(m: Method, v2: u32, s2: u16, v1: u32, s1: u16) -> bool {
    let n1 = div_num(m, v1);
    let d1 = div_den(m, s1);
    let n2 = div_num(m, v2);
    let d2 = div_den(m, s2);
    let c1 = quo_class(n1, d1);
    let c2 = quo_class(n2, d2);
    if c2 != c1 {
        c2 > c1
    } else if c1 == 0 {
        n2 * d1 >= n1 * d2
    } else {
        true
    }
}

/// Exact comparison of two quotients.
fn quo_ge_exec(m: Method, v2: u32, s2: u16, v1: u32, s1: u16) -> (b: bool)
    ensures
        b == quo_ge(m, v2, s2, v1, s1),
{
    proof {
        lemma_mul_bound(v1 as int, v1 as int, u32::MAX as int, u32::MAX as int);
        lemma_mul_bound(v2 as int, v2 as int, u32::MAX as int, u32::MAX as int);
    }
    let n1: u128 = if matches!(m, Method::HUNTINGTONHILL) {
        v1 as u128 * v1 as u128
    } else {
        v1 as u128
    };
    let n2: u128 = if matches!(m, Method::HUNTINGTONHILL) {
        v2 as u128 * v2 as u128
    } else {
        v2 as u128
    };
    let d1: u128 = divisor_exec(m, s1);
    let d2: u128 = divisor_exec(m, s2);
    proof {
        lemma_mul_bound(n1 as int, d1 as int, 0x1_0000_0000_0000_0000, 0x2_0000_0000);
        lemma_mul_bound(n2 as int, d1 as int, 0x1_0000_0000_0000_0000, 0x2_0000_0000);
        lemma_mul_bound(n1 as int, d2 as int, 0x1_0000_0000_0000_0000, 0x2_0000_0000);
        lemma_mul_bound(n2 as int, d2 as int, 0x1_0000_0000_0000_0000, 0x2_0000_0000);
    }
    proof {
        assert(n1 <= 0x1_0000_0000_0000_0000);
        assert(n2 <= 0x1_0000_0000_0000_0000);
    }
    let c1: u8 = if d1 > 0 {
        0
    } else if n1 > 0 {
        1
    } else {
        2
    };
    let c2: u8 = if d2 > 0 {
        0
    } else if n2 > 0 {
        1
    } else {
        2
    };
    if c2 != c1 {
        c2 > c1
    } else if c1 == 0 {
        n2 * d1 >= n1 * d2
    } else {
        true
    }
}

/// The divisor value for a seat count.
fn divisor_exec(m: Method, s: u16) -> (d: u128)
    ensures
        d == div_den(m, s),
        d <= 0x2_0000_0000,
{
    proof {
        lemma_mul_bound(s as int, s as int + 1, 0x1_0000, 0x1_0000);
    }
    match m {
        Method::DHONDT => s as u128 + 1,
        Method::SAINTELAGUE => 2 * s as u128 + 1,
        Method::ADAMS => s as u128,
        Method::IMPERIALI => s as u128 + 2,
        Method::HUNTINGTONHILL => s as u128 * (s as u128 + 1),
        Method::DANISH => 3 * s as u128 + 1,
        _ => s as u128 + 1,
    }
}

/// The index of the best-ranked candidacy among the first `k`, ties going
/// to the later one.
pub open spec fn best_upto(m: Method, votes: Seq<u32>, seats: Seq<u16>, k: int) -> int
    decreases k,
{
    if k <= 1 {
        0
    } else {
        let b = best_upto(m, votes, seats, k - 1);
        if quo_ge(m, votes[k - 1], seats[k - 1], votes[b], seats[b]) {
            k - 1
        } else {
            b
        }
    }
}

pub proof fn lemma_best_upto_bound(m: Method, votes: Seq<u32>, seats: Seq<u16>, k: int)
    requires
        k >= 1,
    ensures
        0 <= best_upto(m, votes, seats, k) < k,
    decreases k,
{
    if k > 1 {
        lemma_best_upto_bound(m, votes, seats, k - 1);
    }
}

/// The allocation after the given number of rounds: each round gives one
/// seat to the best-ranked candidacy.
pub open spec fn div_alloc(m: Method, votes: Seq<u32>, rounds: nat) -> Seq<u16>
    decreases rounds,
{
    if rounds == 0 || votes.len() == 0 {
        Seq::new(votes.len(), |i: int| 0u16)
    } else {
        let prev = div_alloc(m, votes, (rounds - 1) as nat);
        let w = best_upto(m, votes, prev, votes.len() as int);
        prev.update(w, (prev[w] + 1) as u16)
    }
}

/// An allocation never hands out more seats to one candidacy than rounds
/// played.
pub proof fn lemma_div_alloc_bound(m: Method, votes: Seq<u32>, rounds: nat)
    requires
        rounds <= u16::MAX,
    ensures
        div_alloc(m, votes, rounds).len() == votes.len(),
        forall|i: int|
            0 <= i < votes.len() ==> 0 <= #[trigger] div_alloc(m, votes, rounds)[i] <= rounds,
    decreases rounds,
{
    if rounds > 0 && votes.len() > 0 {
        lemma_div_alloc_bound(m, votes, (rounds - 1) as nat);
        let prev = div_alloc(m, votes, (rounds - 1) as nat);
        let w = best_upto(m, votes, prev, votes.len() as int);
        lemma_best_upto_bound(m, votes, prev, votes.len() as int);
        assert(div_alloc(m, votes, rounds) == prev.update(w, (prev[w] + 1) as u16));
        assert(prev.update(w, (prev[w] + 1) as u16).len() == prev.len());
        assert(prev[w] + 1 <= rounds);
    }
}

/// Compute the divisor-method allocation for a vote list.
fn divisor_allocate(m: Method, votes: &Vec<u32>, seats: u16) -> (alloc: Vec<u16>)
    requires
        votes@.len() > 0,
    ensures
        alloc@ == div_alloc(m, votes@, seats as nat),
{
    let n = votes.len();
    let mut alloc: Vec<u16> = Vec::new();
    let mut j: usize = 0;
    while j < n
        invariant
            j <= n,
            n == votes@.len(),
            alloc@ =~= Seq::new(j as nat, |i: int| 0u16),
        decreases n - j,
    {
        alloc.push(0);
        proof {
            assert(alloc@ =~= Seq::new(j as nat + 1, |i: int| 0u16));
        }
        j = j + 1;
    }
    proof {
        assert(alloc@ =~= div_alloc(m, votes@, 0));
    }
    let mut round: u16 = 0;
    while round < seats
        invariant
            round <= seats,
            n == votes@.len(),
            n > 0,
            alloc@ == div_alloc(m, votes@, round as nat),
            alloc@.len() == n,
        decreases seats - round,
    {
        proof {
            lemma_div_alloc_bound(m, votes@, round as nat);
        }
        let mut best: usize = 0;
        let mut j: usize = 1;
        while j < n
            invariant
                1 <= j <= n,
                n == votes@.len(),
                alloc@.len() == n,
                best < j,
                best as int == best_upto(m, votes@, alloc@, j as int),
            decreases n - j,
        {
            if quo_ge_exec(m, votes[j], alloc[j], votes[best], alloc[best]) {
                best = j;
            }
            j = j + 1;
        }
        proof {
            lemma_best_upto_bound(m, votes@, alloc@, n as int);
        }
        let cur = alloc[best];
        proof {
            assert(cur <= round < seats <= u16::MAX);
        }
        alloc.set(best, cur + 1);
        proof {
            assert(alloc@ =~= div_alloc(m, votes@, round as nat + 1));
        }
        round = round + 1;
    }
    alloc
}

/// Read each entry's vote count into a plain list.
pub(crate) fn read_votes<T: WithVotes>(results: &Vec<T>) -> (r: Vec<u32>)
    ensures
        r@ == Seq::new(results@.len(), |i: int| results@[i].spec_votes()),
{
    let n = results.len();
    let mut r: Vec<u32> = Vec::new();
    let mut j: usize = 0;
    while j < n
        invariant
            j <= n,
            n == results@.len(),
            r@ =~= Seq::new(j as nat, |i: int| results@[i].spec_votes()),
        decreases n - j,
    {
        r.push(results[j].get_votes());
        proof {
            assert(r@ =~= Seq::new(j as nat + 1, |i: int| results@[i].spec_votes()));
        }
        j = j + 1;
    }
    r
}

/// Write a computed allocation back into the entries.
pub(crate) fn write_alloc<T: WithSeats>(results: &mut Vec<T>, alloc: &Vec<u16>)
    requires
        alloc@.len() == old(results)@.len(),
    ensures
        final(results)@.len() == old(results)@.len(),
        forall|i: int|
            0 <= i < old(results)@.len() ==> final(results)@[i] == old(results)@[i].with_seats(
                alloc@[i],
            ),
{
    let ghost orig = results@;
    let n = results.len();
    let mut j: usize = 0;
    while j < n
        invariant
            j <= n,
            n == results@.len(),
            results@.len() == orig.len(),
            alloc@.len() == orig.len(),
            forall|i: int| 0 <= i < j ==> results@[i] == orig[i].with_seats(alloc@[i]),
            forall|i: int| j <= i < n ==> results@[i] == orig[i],
        decreases n - j,
    {
        let e = &mut results[j];
        e.set_seats(alloc[j]);
        j = j + 1;
    }
}

/// Shared body of the divisor methods.
fn compute_divisor_m<T: WithVotes + WithSeats>(results: &mut Vec<T>, seats: u16, m: Method) -> (r:
    Result<(), &'static str>)
    ensures
        final(results)@.len() == old(results)@.len(),
        ({
            let vs = Seq::new(old(results)@.len(), |i: int| old(results)@[i].spec_votes());
            match r {
                Ok(_) => !(old(results)@.len() == 0 && seats > 0) && (forall|i: int|
                    0 <= i < old(results)@.len() ==> final(results)@[i] == old(results)@[i].with_seats(div_alloc(m, vs, seats as nat)[i])),
                Err(e) => old(results)@.len() == 0 && seats > 0 && e@ == "EMPTY_RESULTS"@ && final(results)@ == old(results)@,
            }
        }),
{
    let n = results.len();
    if n == 0 {
        if seats > 0 {
            return Err("EMPTY_RESULTS");
        } else {
            return Ok(());
        }
    }
    let vs = read_votes(results);
    let alloc = divisor_allocate(m, &vs, seats);
    proof {
        lemma_div_alloc_bound(m, vs@, seats as nat);
    }
    write_alloc(results, &alloc);
    Ok(())
}

/// D'Hondt: divisors 1, 2, 3, ...
pub fn compute_dhondt<T: WithVotes + WithSeats>(results: &mut Vec<T>, seats: u16) -> (r: Result<
    (),
    &'static str,
>)
    ensures
        final(results)@.len() == old(results)@.len(),
        ({
            let vs = Seq::new(old(results)@.len(), |i: int| old(results)@[i].spec_votes());
            match r {
                Ok(_) => !(old(results)@.len() == 0 && seats > 0) && (forall|i: int|
                    0 <= i < old(results)@.len() ==> final(results)@[i] == old(results)@[i].with_seats(div_alloc(Method::DHONDT, vs, seats as nat)[i])),
                Err(e) => old(results)@.len() == 0 && seats > 0 && e@ == "EMPTY_RESULTS"@ && final(results)@ == old(results)@,
            }
        }),
{
    compute_divisor_m(results, seats, Method::DHONDT)
}

/// Webster/Sainte-Laguë: divisors 1, 3, 5, ...
pub fn compute_sainte_lague<T: WithVotes + WithSeats>(results: &mut Vec<T>, seats: u16) -> (r:
    Result<(), &'static str>)
    ensures
        final(results)@.len() == old(results)@.len(),
        ({
            let vs = Seq::new(old(results)@.len(), |i: int| old(results)@[i].spec_votes());
            match r {
                Ok(_) => !(old(results)@.len() == 0 && seats > 0) && (forall|i: int|
                    0 <= i < old(results)@.len() ==> final(results)@[i] == old(results)@[i].with_seats(div_alloc(Method::SAINTELAGUE, vs, seats as nat)[i])),
                Err(e) => old(results)@.len() == 0 && seats > 0 && e@ == "EMPTY_RESULTS"@ && final(results)@ == old(results)@,
            }
        }),
{
    compute_divisor_m(results, seats, Method::SAINTELAGUE)
}

/// Adams: divisors 0, 1, 2, ...
pub fn compute_adams<T: WithVotes + WithSeats>(results: &mut Vec<T>, seats: u16) -> (r: Result<
    (),
    &'static str,
>)
    ensures
        final(results)@.len() == old(results)@.len(),
        ({
            let vs = Seq::new(old(results)@.len(), |i: int| old(results)@[i].spec_votes());
            match r {
                Ok(_) => !(old(results)@.len() == 0 && seats > 0) && (forall|i: int|
                    0 <= i < old(results)@.len() ==> final(results)@[i] == old(results)@[i].with_seats(div_alloc(Method::ADAMS, vs, seats as nat)[i])),
                Err(e) => old(results)@.len() == 0 && seats > 0 && e@ == "EMPTY_RESULTS"@ && final(results)@ == old(results)@,
            }
        }),
{
    compute_divisor_m(results, seats, Method::ADAMS)
}

/// Imperiali: divisors 2, 3, 4, ...
pub fn compute_imperiali<T: WithVotes + WithSeats>(results: &mut Vec<T>, seats: u16) -> (r: Result<
    (),
    &'static str,
>)
    ensures
        final(results)@.len() == old(results)@.len(),
        ({
            let vs = Seq::new(old(results)@.len(), |i: int| old(results)@[i].spec_votes());
            match r {
                Ok(_) => !(old(results)@.len() == 0 && seats > 0) && (forall|i: int|
                    0 <= i < old(results)@.len() ==> final(results)@[i] == old(results)@[i].with_seats(div_alloc(Method::IMPERIALI, vs, seats as nat)[i])),
                Err(e) => old(results)@.len() == 0 && seats > 0 && e@ == "EMPTY_RESULTS"@ && final(results)@ == old(results)@,
            }
        }),
{
    compute_divisor_m(results, seats, Method::IMPERIALI)
}

/// Huntington-Hill: divisors sqrt(s(s+1)), compared by squares.
pub fn compute_huntington_hill<T: WithVotes + WithSeats>(results: &mut Vec<T>, seats: u16) -> (r:
    Result<(), &'static str>)
    ensures
        final(results)@.len() == old(results)@.len(),
        ({
            let vs = Seq::new(old(results)@.len(), |i: int| old(results)@[i].spec_votes());
            match r {
                Ok(_) => !(old(results)@.len() == 0 && seats > 0) && (forall|i: int|
                    0 <= i < old(results)@.len() ==> final(results)@[i] == old(results)@[i].with_seats(div_alloc(Method::HUNTINGTONHILL, vs, seats as nat)[i])),
                Err(e) => old(results)@.len() == 0 && seats > 0 && e@ == "EMPTY_RESULTS"@ && final(results)@ == old(results)@,
            }
        }),
{
    compute_divisor_m(results, seats, Method::HUNTINGTONHILL)
}

/// Danish: divisors 1, 4, 7, ...
pub fn compute_danish<T: WithVotes + WithSeats>(results: &mut Vec<T>, seats: u16) -> (r: Result<
    (),
    &'static str,
>)
    ensures
        final(results)@.len() == old(results)@.len(),
        ({
            let vs = Seq::new(old(results)@.len(), |i: int| old(results)@[i].spec_votes());
            match r {
                Ok(_) => !(old(results)@.len() == 0 && seats > 0) && (forall|i: int|
                    0 <= i < old(results)@.len() ==> final(results)@[i] == old(results)@[i].with_seats(div_alloc(Method::DANISH, vs, seats as nat)[i])),
                Err(e) => old(results)@.len() == 0 && seats > 0 && e@ == "EMPTY_RESULTS"@ && final(results)@ == old(results)@,
            }
        }),
{
    compute_divisor_m(results, seats, Method::DANISH)
}

/// The index of the candidacy with the most votes among the first `k`,
/// ties going to the later one.
pub open spec fn wta_best(votes: Seq<u32>, k: int) -> int
    decreases k,
{
    if k <= 1 {
        0
    } else {
        let b = wta_best(votes, k - 1);
        if votes[k - 1] >= votes[b] {
            k - 1
        } else {
            b
        }
    }
}

pub proof fn lemma_wta_best_bound(votes: Seq<u32>, k: int)
    requires
        k >= 1,
    ensures
        0 <= wta_best(votes, k) < k,
    decreases k,
{
    if k > 1 {
        lemma_wta_best_bound(votes, k - 1);
    }
}

/// What winner-takes-all assigns: the full seat count to the candidacy
/// with the most votes, zero to all others.
pub open spec fn wta_alloc(votes: Seq<u32>, seats: u16) -> Seq<int> {
    Seq::new(
        votes.len(),
        |i: int| if i == wta_best(votes, votes.len() as int) {
            seats as int
        } else {
            0
        },
    )
}

/// Winner takes all: every seat goes to the candidacy with the most
/// votes.
pub fn compute_wta<T: WithVotes + WithSeats>(results: &mut Vec<T>, seats: u16) -> (r: Result<
    (),
    &'static str,
>)
    ensures
        final(results)@.len() == old(results)@.len(),
        ({
            let vs = Seq::new(old(results)@.len(), |i: int| old(results)@[i].spec_votes());
            match r {
                Ok(_) => old(results)@.len() > 0 && (forall|i: int|
                    0 <= i < old(results)@.len() ==> final(results)@[i] == old(results)@[i].with_seats(wta_alloc(vs, seats)[i] as u16)),
                Err(e) => old(results)@.len() == 0 && e@ == "EMPTY_RESULTS"@ && final(results)@
                    == old(results)@,
            }
        }),
{
    let n = results.len();
    if n == 0 {
        return Err("EMPTY_RESULTS");
    }
    let vs = read_votes(results);
    let mut best: usize = 0;
    let mut j: usize = 1;
    while j < n
        invariant
            1 <= j <= n,
            n == vs@.len(),
            best < j,
            best as int == wta_best(vs@, j as int),
        decreases n - j,
    {
        if vs[j] >= vs[best] {
            best = j;
        }
        j = j + 1;
    }
    let mut alloc: Vec<u16> = Vec::new();
    let mut k: usize = 0;
    while k < n
        invariant
            k <= n,
            n == vs@.len(),
            best < n,
            best as int == wta_best(vs@, n as int),
            alloc@ =~= Seq::new(
                k as nat,
                |i: int| if i == best as int {
                    seats
                } else {
                    0u16
                },
            ),
        decreases n - k,
    {
        if k == best {
            alloc.push(seats);
        } else {
            alloc.push(0);
        }
        proof {
            assert(alloc@ =~= Seq::new(
                k as nat + 1,
                |i: int| if i == best as int {
                    seats
                } else {
                    0u16
                },
            ));
        }
        k = k + 1;
    }
    write_alloc(results, &alloc);
    proof {
        assert forall|i: int| 0 <= i < n implies alloc@[i] == wta_alloc(vs@, seats)[i] as u16 by {}
    }
    Ok(())
}

} // verus!
