//! Named entities of the region tree: regions and candidacies.

use vstd::prelude::*;

verus! {

/// A node of the geographic hierarchy, identified elsewhere by its id.
#[derive(Debug, Clone)]
pub struct Region {
    pub name: String,
}

/// A competing entity (a party, a list), identified elsewhere by its id.
#[derive(Debug, Clone)]
pub struct Candidacy {
    pub name: String,
}

impl Region {
    pub fn new(name: &str) -> (r: Region)
        ensures
            r.name@ == name@,
    {
        Region { name: name.to_owned() }
    }

    pub fn name(&self) -> (r: &str)
        ensures
            r@ == self.name@,
    {
        self.name.as_str()
    }
}

impl Candidacy {
    pub fn new(name: &str) -> (r: Candidacy)
        ensures
            r.name@ == name@,
    {
        Candidacy { name: name.to_owned() }
    }

    pub fn name(&self) -> (r: &str)
        ensures
            r@ == self.name@,
    {
        self.name.as_str()
    }
}

} // verus!
