//! What the detectors of a cribbage hand find, as mathematics: for each of
//! them the groups that score and the cards that are left over, over
//! sequences of cards, with the laws that hold of them.

pub mod fifteens;
pub mod groups;
pub mod hand;
pub mod kinds;
pub mod order;
pub mod runs;
