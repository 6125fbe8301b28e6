//! Moves of the game as seen by an agent.
use vstd::prelude::*;

verus! {

/// A move: place the current tile at column `q`, row `r`, turned by `rotation`.
#[derive(Debug, Clone, Copy, PartialEq, Eq, Hash, Structural)]
pub struct Action {
    pub q: i32,
    pub r: i32,
    pub rotation: usize,
}

} // verus!
