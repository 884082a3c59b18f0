//! A grid-based resource-diffusion engine for spacecraft decks.
//!
//! A deck is an ordered collection of blocks placed on a 2-D grid. Each block
//! carries a mapping from resource names (air, electricity, free air, fuel,
//! water) to pools, where a pool is an amount/capacity pair. Once per tick the
//! engine moves quantities between pools of adjacent blocks toward pressure
//! equilibrium: vents first convert stored air into room air, every pool is
//! exposed as a flow node, pressure differences between connected nodes are
//! damped and applied in discovery order, and exposed room air then decays
//! toward the surrounding vacuum.
//!
//! Quantities are fixed-point integers: callers pick the scale (for example,
//! one unit or one millionth of a unit per step) and the engine computes flows
//! with exact rational arithmetic, truncating each transfer toward zero.

pub mod block;
pub mod deck;
pub mod laws;
pub mod ship;
