//! The candidacy record a district configuration hands to the
//! apportionment methods: a tree snapshot entry with its candidacy id.

use vstd::prelude::*;

use crate::interface::{WithSeats, WithVotes};

verus! {

/// One candidacy of one district, as read out of the tree.
#[derive(Debug, Clone, Copy, PartialEq, Eq, Structural)]
pub struct Candidacy {
    pub id: u32,
    pub votes: u32,
    pub seats: u16,
}

impl WithVotes for Candidacy {
    open spec fn spec_votes(&self) -> u32 {
        self.votes
    }

    open spec fn with_votes(self, votes: u32) -> Self {
        Candidacy { votes, ..self }
    }

    fn get_votes(&self) -> (r: u32) {
        self.votes
    }

    fn set_votes(&mut self, votes: u32) {
        self.votes = votes;
    }
}

impl WithSeats for Candidacy {
    open spec fn spec_seats(&self) -> u16 {
        self.seats
    }

    open spec fn with_seats(self, seats: u16) -> Self {
        Candidacy { seats, ..self }
    }

    fn get_seats(&self) -> (r: u16) {
        self.seats
    }

    fn set_seats(&mut self, seats: u16) {
        self.seats = seats;
    }
}

} // verus!
