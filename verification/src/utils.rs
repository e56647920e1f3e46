//! Helpers over lists of vote/seat carriers.

use vstd::prelude::*;

use crate::interface::{WithSeats, WithVotes};

verus! {

/// The total vote count of the first `n` entries.
pub open spec fn spec_total_votes<T: WithVotes>(s: Seq<T>, n: int) -> int
    decreases n,
{
    if n <= 0 {
        0
    } else {
        spec_total_votes(s, n - 1) + s[n - 1].spec_votes()
    }
}

/// The total seat count of the first `n` entries.
pub open spec fn spec_total_seats<T: WithSeats>(s: Seq<T>, n: int) -> int
    decreases n,
{
    if n <= 0 {
        0
    } else {
        spec_total_seats(s, n - 1) + s[n - 1].spec_seats()
    }
}

/// Set every entry's seat count to zero.
pub fn clear_results<T: WithSeats>(results: &mut Vec<T>)
    ensures
        final(results)@.len() == old(results)@.len(),
        forall|i: int|
            0 <= i < old(results)@.len() ==> final(results)@[i] == old(results)@[i].with_seats(
                0u16,
            ),
{
    let ghost orig = results@;
    let n = results.len();
    let mut j: usize = 0;
    while j < n
        invariant
            j <= n,
            n == results@.len(),
            results@.len() == orig.len(),
            forall|i: int| 0 <= i < j ==> results@[i] == orig[i].with_seats(0u16),
            forall|i: int| j <= i < n ==> results@[i] == orig[i],
        decreases n - j,
    {
        let e = &mut results[j];
        e.set_seats(0);
        j = j + 1;
    }
}

/// The sum of all vote counts.
pub fn compute_total_votes<T: WithVotes>(results: &Vec<T>) -> (r: u32)
    requires
        spec_total_votes(results@, results@.len() as int) <= u32::MAX,
    ensures
        r == spec_total_votes(results@, results@.len() as int),
{
    proof {
        lemma_total_votes_mono(results@, results@.len() as int);
    }
    let n = results.len();
    let mut total: u32 = 0;
    let mut j: usize = 0;
    while j < n
        invariant
            j <= n,
            n == results@.len(),
            total == spec_total_votes(results@, j as int),
            spec_total_votes(results@, n as int) <= u32::MAX,
            forall|k: int|
                0 <= k <= n ==> spec_total_votes(results@, k) <= spec_total_votes(
                    results@,
                    n as int,
                ),
            forall|k: int| 0 <= k <= n ==> spec_total_votes(results@, k) >= 0,
        decreases n - j,
    {
        proof {
            assert(spec_total_votes(results@, j as int + 1) == spec_total_votes(
                results@,
                j as int,
            ) + results@[j as int].spec_votes());
            assert(spec_total_votes(results@, j as int + 1) <= spec_total_votes(
                results@,
                n as int,
            ));
        }
        total = total + results[j].get_votes();
        j = j + 1;
    }
    total
}

/// The sum of all seat counts.
pub fn compute_total_seats<T: WithSeats>(results: &Vec<T>) -> (r: u16)
    requires
        spec_total_seats(results@, results@.len() as int) <= u16::MAX,
    ensures
        r == spec_total_seats(results@, results@.len() as int),
{
    proof {
        lemma_total_seats_mono(results@, results@.len() as int);
    }
    let n = results.len();
    let mut total: u16 = 0;
    let mut j: usize = 0;
    while j < n
        invariant
            j <= n,
            n == results@.len(),
            total == spec_total_seats(results@, j as int),
            spec_total_seats(results@, n as int) <= u16::MAX,
            forall|k: int|
                0 <= k <= n ==> spec_total_seats(results@, k) <= spec_total_seats(
                    results@,
                    n as int,
                ),
            forall|k: int| 0 <= k <= n ==> spec_total_seats(results@, k) >= 0,
        decreases n - j,
    {
        proof {
            assert(spec_total_seats(results@, j as int + 1) == spec_total_seats(
                results@,
                j as int,
            ) + results@[j as int].spec_seats());
            assert(spec_total_seats(results@, j as int + 1) <= spec_total_seats(
                results@,
                n as int,
            ));
        }
        total = total + results[j].get_seats();
        j = j + 1;
    }
    total
}

/// Prefix sums of votes grow with their length and are never negative.
pub proof fn lemma_total_votes_mono<T: WithVotes>(s: Seq<T>, n: int)
    ensures
        forall|k: int| 0 <= k <= n ==> spec_total_votes(s, k) <= spec_total_votes(s, n),
        forall|k: int| 0 <= k <= n ==> spec_total_votes(s, k) >= 0,
    decreases n,
{
    if n > 0 {
        lemma_total_votes_mono::<T>(s, n - 1);
        assert forall|k: int| 0 <= k <= n implies spec_total_votes(s, k) <= spec_total_votes(
            s,
            n,
        ) by {
            if k < n {
                assert(spec_total_votes(s, k) <= spec_total_votes(s, n - 1));
            }
        }
        assert forall|k: int| 0 <= k <= n implies spec_total_votes(s, k) >= 0 by {
            if k < n {
                assert(spec_total_votes(s, k) >= 0);
            } else {
                assert(spec_total_votes(s, n - 1) >= 0);
            }
        }
    }
}

/// Prefix sums of seats grow with their length and are never negative.
pub proof fn lemma_total_seats_mono<T: WithSeats>(s: Seq<T>, n: int)
    ensures
        forall|k: int| 0 <= k <= n ==> spec_total_seats(s, k) <= spec_total_seats(s, n),
        forall|k: int| 0 <= k <= n ==> spec_total_seats(s, k) >= 0,
    decreases n,
{
    if n > 0 {
        lemma_total_seats_mono::<T>(s, n - 1);
        assert forall|k: int| 0 <= k <= n implies spec_total_seats(s, k) <= spec_total_seats(
            s,
            n,
        ) by {
            if k < n {
                assert(spec_total_seats(s, k) <= spec_total_seats(s, n - 1));
            }
        }
        assert forall|k: int| 0 <= k <= n implies spec_total_seats(s, k) >= 0 by {
            if k < n {
                assert(spec_total_seats(s, k) >= 0);
            } else {
                assert(spec_total_seats(s, n - 1) >= 0);
            }
        }
    }
}

} // verus!
