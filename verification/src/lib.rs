//! The discrete core of a first-person movement engine: the shape of the
//! world's space partition, the order of a box sweep through it, and the
//! decisions of a movement step.  The real-valued geometry that these rest on
//! is the caller's; it enters here as the answers to yes-or-no questions.
pub mod bsp;
pub mod map;
pub mod player;
