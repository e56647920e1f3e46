//! The apportionment methods: divisor (highest-quotient) schemes and
//! largest-remainder schemes, computed with exact integer arithmetic.

pub mod divisor;
pub mod remainder;

use vstd::prelude::*;

use crate::interface::{WithSeats, WithVotes};
use crate::methods::divisor::{
    compute_adams, compute_danish, compute_dhondt, compute_huntington_hill, compute_imperiali,
    compute_sainte_lague, compute_wta, div_alloc, wta_alloc,
};
use crate::methods::remainder::{
    compute_droop, compute_hagenbach_bischoff, compute_hare, compute_imperiali_quotient, rem_alloc,
    rem_fits_u16,
};
use crate::utils::spec_total_votes;

verus! {

/// A seat-allocation formula.
#[allow(non_camel_case_types)]
#[derive(Debug, Copy, Clone, PartialEq, Eq, Structural)]
pub enum Method {
    DHONDT,
    HARE,
    DROOP,
    SAINTELAGUE,
    ADAMS,
    IMPERIALI,
    HUNTINGTONHILL,
    DANISH,
    WINNERTAKESALL,
    HAGENBASCHBISCHOFF,
    IMPERIALIQUOTIENT,
}

/// Whether a method fails outright on the given input shape: every method
/// needs at least one candidacy, except that the round-based methods
/// accept an empty list when no seats are to be assigned.
pub open spec fn method_errs(m: Method, len: int, seats: u16) -> bool {
    if m is WINNERTAKESALL {
        len == 0
    } else {
        len == 0 && seats > 0
    }
}

/// The seat count each entry receives from the given method.
pub open spec fn method_alloc(m: Method, votes: Seq<u32>, seats: u16) -> Seq<int> {
    match m {
        Method::DHONDT | Method::SAINTELAGUE | Method::ADAMS | Method::IMPERIALI
            | Method::HUNTINGTONHILL | Method::DANISH => Seq::new(
            votes.len(),
            |i: int| div_alloc(m, votes, seats as nat)[i] as int,
        ),
        Method::WINNERTAKESALL => wta_alloc(votes, seats),
        Method::HARE | Method::DROOP | Method::HAGENBASCHBISCHOFF | Method::IMPERIALIQUOTIENT
            => rem_alloc(m, votes, seats),
    }
}

/// The input bounds the given method needs: the total vote count must be
/// representable, and for the remainder methods no single integer part
/// may come within `seats` of the seat-count ceiling.
pub open spec fn method_fits(m: Method, votes: Seq<u32>, seats: u16) -> bool {
    match m {
        Method::HARE | Method::DROOP | Method::HAGENBASCHBISCHOFF | Method::IMPERIALIQUOTIENT
            => rem_fits_u16(m, votes, seats),
        _ => true,
    }
}

/// Run the selected apportionment method. Each method clears all seats
/// and then assigns per its formula; an empty candidacy list is rejected.
pub fn get_method_function<T: WithVotes + WithSeats>(
    method: Method,
    results: &mut Vec<T>,
    seats: u16,
) -> (r: Result<(), &'static str>)
    requires
        method_fits(method, Seq::new(old(results)@.len(), |i: int| old(results)@[i].spec_votes()), seats),
    ensures
        final(results)@.len() == old(results)@.len(),
        ({
            let vs = Seq::new(old(results)@.len(), |i: int| old(results)@[i].spec_votes());
            match r {
                Ok(_) => !method_errs(method, old(results)@.len() as int, seats) && (forall|i: int|
                    0 <= i < old(results)@.len() ==> final(results)@[i] == old(results)@[i].with_seats(method_alloc(method, vs, seats)[i] as u16)),
                Err(e) => method_errs(method, old(results)@.len() as int, seats) && e@
                    == "EMPTY_RESULTS"@ && final(results)@ == old(results)@,
            }
        }),
{
    match method {
        Method::DHONDT => compute_dhondt(results, seats),
        Method::HARE => compute_hare(results, seats),
        Method::SAINTELAGUE => compute_sainte_lague(results, seats),
        Method::ADAMS => compute_adams(results, seats),
        Method::IMPERIALI => compute_imperiali(results, seats),
        Method::HUNTINGTONHILL => compute_huntington_hill(results, seats),
        Method::DANISH => compute_danish(results, seats),
        Method::WINNERTAKESALL => compute_wta(results, seats),
        Method::HAGENBASCHBISCHOFF => compute_hagenbach_bischoff(results, seats),
        Method::IMPERIALIQUOTIENT => compute_imperiali_quotient(results, seats),
        Method::DROOP => compute_droop(results, seats),
    }
}

} // verus!
