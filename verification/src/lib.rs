//! Authoritative simulation core for a small multiplayer island game.
//!
//! The crate holds the procedural terrain generator, the
//! entity-component world store, the tick pipeline of simulation
//! systems, the snapshot codec that turns the world into a
//! transmissible text form, and the per-connection session logic of
//! the synchronization server.

pub mod components;
pub mod rng;
pub mod terrain;
pub mod world;
pub mod movement;
pub mod animation;
pub mod carry;
pub mod crab_ai;
pub mod weapons;
pub mod codec;
pub mod entities;
pub mod state;
pub mod session;
pub mod point;
pub mod string_writer;
pub mod velocity;

use vstd::prelude::*;

verus! {

} // verus!
