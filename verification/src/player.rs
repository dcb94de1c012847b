//! What a movement step decides about a player.
use vstd::prelude::*;

pub mod movement;

verus! {

/// The two marks that a player carries from one step to the next.
#[derive(Debug, Clone, Copy, PartialEq, Eq, Structural)]
pub struct PlayerFlags {
    /// The last step ended in contact with a floor.
    pub on_ground: bool,
    /// A jump was made and its button has not been let go since.
    pub jumped: bool,
}

impl PlayerFlags {
    /// Neither mark set.
    pub fn empty() -> (flags: PlayerFlags)
        ensures
            !flags.on_ground,
            !flags.jumped,
    {
        PlayerFlags { on_ground: false, jumped: false }
    }
}

} // verus!
