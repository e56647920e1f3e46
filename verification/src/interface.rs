//! Capabilities shared by everything that carries votes and seats: plain
//! candidacy records and tree-tally snapshots alike.

use vstd::prelude::*;

verus! {

/// Addition of a signed delta to a 16-bit count, clamped to
/// `[0, u16::MAX]`.
pub open spec fn sat_add_u16(a: u16, d: int) -> u16 {
    if a + d < 0 {
        0u16
    } else if a + d > u16::MAX {
        u16::MAX
    } else {
        (a + d) as u16
    }
}

/// Addition of a signed delta to a 32-bit count, clamped to
/// `[0, u32::MAX]`.
pub open spec fn sat_add_u32_w(a: u32, d: int) -> u32 {
    if a + d < 0 {
        0u32
    } else if a + d > u32::MAX {
        u32::MAX
    } else {
        (a + d) as u32
    }
}

/// An entity that has votes.
pub trait WithVotes: Sized {
    /// The vote count this entity carries.
    spec fn spec_votes(&self) -> u32;

    /// The same entity with its vote count replaced.
    spec fn with_votes(self, votes: u32) -> Self;

    fn get_votes(&self) -> (r: u32)
        ensures
            r == self.spec_votes(),
    ;

    fn set_votes(&mut self, votes: u32)
        ensures
            *final(self) == old(self).with_votes(votes),
            final(self).spec_votes() == votes,
    ;

    /// Add a signed delta to the vote count, clamping at the ends of the
    /// unsigned range.
    fn increase_votes(&mut self, n: i32)
        ensures
            *final(self) == old(self).with_votes(
                sat_add_u32_w(old(self).spec_votes(), n as int),
            ),
            final(self).spec_votes() == sat_add_u32_w(old(self).spec_votes(), n as int),
    {
        let cur = self.get_votes();
        let t: i64 = cur as i64 + n as i64;
        let target: u32 = if t < 0 {
            0
        } else if t > u32::MAX as i64 {
            u32::MAX
        } else {
            t as u32
        };
        self.set_votes(target);
    }
}

/// An entity that has seats.
pub trait WithSeats: Sized {
    /// The seat count this entity carries.
    spec fn spec_seats(&self) -> u16;

    /// The same entity with its seat count replaced.
    spec fn with_seats(self, seats: u16) -> Self;

    fn get_seats(&self) -> (r: u16)
        ensures
            r == self.spec_seats(),
    ;

    fn set_seats(&mut self, seats: u16)
        ensures
            *final(self) == old(self).with_seats(seats),
            final(self).spec_seats() == seats,
    ;

    /// Add a signed delta to the seat count, clamping at the ends of the
    /// unsigned range.
    fn increase_seats(&mut self, n: i16)
        ensures
            *final(self) == old(self).with_seats(
                sat_add_u16(old(self).spec_seats(), n as int),
            ),
            final(self).spec_seats() == sat_add_u16(old(self).spec_seats(), n as int),
    {
        let cur = self.get_seats();
        let t: i32 = cur as i32 + n as i32;
        let target: u16 = if t < 0 {
            0
        } else if t > u16::MAX as i32 {
            u16::MAX
        } else {
            t as u16
        };
        self.set_seats(target);
    }
}

} // verus!
