//! Texas hold'em for one human against up to four bots: cards and hand
//! ranking, the betting state machine, and the table helpers.

pub mod bots;
pub mod cards;
pub mod game;
pub mod pots;
pub mod table;
pub mod text;
