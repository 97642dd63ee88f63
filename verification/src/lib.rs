//! Moonshell core: the verified game logic of the horde tower-defense engine.
use vstd::prelude::*;

pub mod astar;
pub mod battle;
pub mod content;
pub mod flow;
pub mod graph;
pub mod hub;
pub mod queue;
pub mod spike;

verus! {

} // verus!
