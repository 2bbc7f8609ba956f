//! Filter banks of the real-time engine and their numeric codes.
use vstd::prelude::*;

verus! {

/// Which filter bank an update targets.
#[derive(Clone, Copy, PartialEq, Eq, Debug, Structural)]
pub enum Bank {
    /// The parametric EQ chain.
    Eq,
    /// The acoustics / simulation chain.
    Sim,
    /// The active crossover filters.
    Xo,
}

/// The bank a numeric code selects: 1 the simulation chain, 2 the crossover,
/// any other code the parametric EQ.
pub open spec fn bank_from_code(v: int) -> Bank {
    if v == 1 {
        Bank::Sim
    } else if v == 2 {
        Bank::Xo
    } else {
        Bank::Eq
    }
}

impl Bank {
    /// Decode the numeric bank code the front end sends (0 = EQ, 1 = Sim,
    /// 2 = Crossover; unknown codes select the EQ).
    pub fn from_code(v: i32) -> (b: Bank)
        ensures
            b == bank_from_code(v as int),
    {
        match v {
            1 => Bank::Sim,
            2 => Bank::Xo,
            _ => Bank::Eq,
        }
    }
}

} // verus!
