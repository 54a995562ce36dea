//! Placements for a falling-block game on a board of ten columns: every
//! resting placement that a piece can reach, what placing it does to the
//! game, and a beam search for the placement to make.
//!
//! - `bits`: sets of rows as 64-bit words;
//! - `data`, `board`, `squeeze`: pieces, the board, and clearing rows;
//! - `collision`, `kicks`: where a piece cannot be, and how it turns;
//! - `reach`, `least`: what a piece reaches, as the least family of row sets
//!   closed under its moves;
//! - `field`, `explore`, `movegen`, `fixed`: the search that finds it, and
//!   the list of placements;
//! - `laws`, `stacked`: what holds of every placement listed, and what is
//!   listed on a board without holes;
//! - `game`: placing a piece;
//! - `search`, `features`, `rating`: the beam search and what it is guided by;
//! - `battle`, `queue`, `perft`: two players, the pieces to come, counting.
pub mod battle;
pub mod bits;
pub mod board;
pub mod collision;
pub mod data;
pub mod explore;
pub mod features;
pub mod field;
pub mod fixed;
pub mod game;
pub mod kicks;
pub mod laws;
pub mod least;
pub mod movegen;
pub mod perft;
pub mod queue;
pub mod rating;
pub mod reach;
pub mod search;
pub mod squeeze;
pub mod stacked;
