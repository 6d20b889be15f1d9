use vstd::prelude::*;

pub mod hex;
pub mod piece;
pub mod text;
pub mod game_state;
pub mod moves;
pub mod invariants;
pub mod notation;
pub mod game_string;
pub mod engine;
pub mod ai;

verus! {

} // verus!
