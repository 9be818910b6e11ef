//! Simulation core of a small vertical shooter: the entity registry, motion,
//! collisions, spawning and the explosion animation.
//!
//! Time is counted in milliseconds since the start of the run; coordinates and
//! half extents in thousandths of a unit; speeds in units per second, so that a
//! speed times a number of milliseconds is a distance in thousandths.
//!
//! Decisions on behaviour:
//! - the enemies' rate-limited approach clamps each axis against its own
//!   candidate (see `geometry::approach`);
//! - the respawn gate is multiplicative: a player shot at `t` returns once the
//!   time exceeds `t * RESPAWN_DELAY`;
//! - a player laser is removed once above the window height, an enemy laser
//!   once 50 units below the bottom edge;
//! - at most `MAX_ENEMIES` enemies are alive at once.
pub mod geometry;
pub mod world;
pub mod motion;
pub mod spawn;
pub mod explosion;
pub mod combat;
pub mod game;
