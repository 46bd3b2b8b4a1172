use vstd::prelude::*;

verus! {

/// Errors of the game.
#[derive(Clone, Copy, Debug, PartialEq, Eq, Structural)]
pub enum GameError {
    Unknown,
}

impl GameError {
    /// The text that describes the error.
    pub fn message(&self) -> (res: &'static str)
        ensures
            res@ == "unknown game error"@,
    {
        match self {
            GameError::Unknown => "unknown game error",
        }
    }
}

} // verus!
