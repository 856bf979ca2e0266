//! Playing cards, poker hand ranking and the search for the best concealed
//! holding on a hold'em board, with machine-checked contracts.

pub mod cards;
pub mod combos;
pub mod groups;
pub mod hands;
pub mod hold_em;
