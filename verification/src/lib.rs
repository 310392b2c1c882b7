//! Verified core of a lane-crossing game: colours and pixels, the seeded
//! random generator, the lane world model, path finding over the lane grid,
//! the game state machine, the colours of the scene, the keyboard mapping,
//! and the proofs that the world drawn is a function of the seed.

pub mod color;
pub mod framebuffer;
pub mod random;
pub mod masks;

pub mod world;
pub mod grid;
pub mod game;
pub mod scene;
pub mod window;
pub mod replay;
