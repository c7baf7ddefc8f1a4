//! Tombola ticket generation from a seed, and raffle simulation over a ticket pool.
use vstd::prelude::*;

pub mod combination;
pub mod configuration;
pub mod cyclic;
pub mod generator;
pub mod rng;
pub mod simulator;
pub mod ticket;

pub use crate::generator::{run, Config};

verus! {

} // verus!
