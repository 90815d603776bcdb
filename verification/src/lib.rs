//! Army Ghosts: the rules around the match.

pub mod ads;
pub mod game;
pub mod grass;
pub mod hud;
pub mod input;
pub mod launch;
pub mod menu;
pub mod mesh;
pub mod nameplate;
pub mod net;
pub mod order;
pub mod peer;
pub mod persist;
pub mod render;
pub mod room;
pub mod roster;
pub mod selfplay;
pub mod session;
pub mod sound;
pub mod spectate;
pub mod sprt;
pub mod stance;
pub mod strip;
pub mod table;
pub mod text;
pub mod wire;

use vstd::prelude::*;

verus! {

/// How many pawns a match has room for.
pub const MAX_PLAYERS: usize = 8;

/// How many sides a match has.
pub const TEAM_COUNT: usize = 2;

/// Ticks in a second.
pub const TICK_HZ: usize = 60;

/// The stances, from the highest down.
pub const STANCE_STAND: u8 = 0;

pub const STANCE_CROUCH: u8 = 1;

pub const STANCE_PRONE: u8 = 2;

pub const STANCE_COUNT: usize = 3;

} // verus!
