use crate::random::draw_between;
use vstd::prelude::*;

verus! {

/// One binary cell of a bit string.
#[derive(Clone, Copy, Debug)]
pub struct Gene(pub i32);

/// The other bit: one becomes zero, anything else becomes one.
pub open spec fn flip(bit: int) -> int {
    if bit == 1 {
        0
    } else {
        1
    }
}

impl View for Gene {
    type V = int;

    open spec fn view(&self) -> int {
        self.0 as int
    }
}

impl Gene {
    /// A gene holds zero or one.
    pub open spec fn binary(&self) -> bool {
        self.0 == 0 || self.0 == 1
    }

    /// A gene drawn at random from zero and one.
    pub fn new() -> (g: Gene)
        ensures
            g.binary(),
    {
        let bit: u64 = draw_between(0, 2);
        Gene(bit as i32)
    }

    /// The gene with the other bit.
    pub fn flipped(&self) -> (g: Gene)
        ensures
            g@ == flip(self@),
            g.binary(),
    {
        match self.0 {
            1 => Gene(0),
            _ => Gene(1),
        }
    }
}

} // verus!
