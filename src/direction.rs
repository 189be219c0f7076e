use vstd::prelude::*;

verus! {

/// Which way a time shift goes: later (`Forward`) or earlier (`Backward`).
#[derive(Debug, Clone, Copy, PartialEq, Eq, Structural)]
pub enum Direction {
    Forward,
    Backward,
}

impl Default for Direction {
    fn default() -> (r: Self)
        ensures
            r == Direction::Forward,
    {
        Direction::Forward
    }
}

} // verus!
