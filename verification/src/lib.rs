//! Turn-based logic of a hexagonal tile game: action definitions and their
//! selection bounds, tile eligibility and selection, pieces, players and turn
//! order, the card shop and card inventories.
//!
//! Entities of the game world (tiles, pieces, players) are identified by plain
//! `u64` ids, and loaded assets (cards, pieces, orders) by `u64` handle ids.

pub mod actions;
pub mod cards;
pub mod eligibility;
pub mod execution;
pub mod input;
pub mod pieces;
pub mod players;
pub mod refresh_groups;
mod rng;
pub mod setup;
pub mod shop;
pub mod tiles;
