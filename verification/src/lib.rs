//! A solver for a Rummikub-style puzzle. Given the tiles on the board and
//! the tiles in a player's hand, it finds the rearrangement of the board's
//! tiles and some of the hand's into legal groups that lays down the most
//! tiles of the hand.
//!
//! - [`tile`] holds the tiles and their canonical order, [`text`] their
//!   written form, and [`state`] the board and the hand.
//! - [`group`] says what a run and a set are and holds the validator;
//!   [`arrange`] writes a group with its jokers at their places.
//! - [`table`] counts tiles by kind; [`plan`] says what a rearrangement
//!   uses and which of two is preferred.
//! - [`candidates`] lists the groups that can hold a tile, [`forcing`]
//!   finds tiles that can stand in none, and [`search`] walks through the
//!   rearrangements.
//! - [`solver`] states what the solution is, proves what holds of it, and
//!   computes it.

pub mod arrange;
pub mod candidates;
pub mod forcing;
pub mod group;
mod memo;
pub mod plan;
pub mod search;
pub mod solver;
pub mod state;
pub mod table;
pub mod text;
pub mod tile;
