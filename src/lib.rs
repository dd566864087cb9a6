//! Simulation core of a grid arena game: actors move through a brick-filled
//! arena, plant timed devices, and are eliminated by their blasts.
pub mod geometry;
pub mod arena;
pub mod world;
pub mod movement;
pub mod detonation;
pub mod timers;
pub mod policy;
