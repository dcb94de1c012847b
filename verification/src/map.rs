//! The static world.
use vstd::prelude::*;
use crate::bsp::Tree;

verus! {

/// A world to move in: its space partition.
pub struct WorldMap {
    pub bsp: Tree,
}

} // verus!
