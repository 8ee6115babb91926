//! The board-state and effect-trigger engine of a two-player
//! collectible-card battle game: a slot-addressed minion store per
//! player, the summon/attack/death state machine, and the dispatch of
//! the behaviors cards attach to their minions.

pub mod board;
pub mod minion;
pub mod minions;
