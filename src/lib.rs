//! Dining philosophers: actors on a ring of exclusive cells, each needing the
//! two cells beside it, with an acquisition order that rules out circular wait.
pub mod dinner;
pub mod philosopher;
pub mod protocol;
pub mod ring;
pub mod roster;
