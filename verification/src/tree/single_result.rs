use vstd::prelude::*;

verus! {

/// One candidacy's tally inside one region: a vote count and a seat count.
#[derive(Debug, Clone, Copy, PartialEq, Eq, Structural)]
pub struct SingleResult {
    pub votes: u32,
    pub seats: u32,
}

impl SingleResult {
    pub fn new(votes: u32, seats: u32) -> (r: SingleResult)
        ensures
            r == (SingleResult { votes, seats }),
    {
        SingleResult { votes, seats }
    }
}

} // verus!
