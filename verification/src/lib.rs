//! Packed group arithmetic for NxNxN twisty cubes.
pub mod alg;
pub mod analysis;
pub mod arena;
pub mod bit;
pub mod bits;
pub mod checks;
pub mod cube_moves;
pub mod cube_perm;
pub mod cube_vect;
pub mod cycles;
pub mod error;
pub mod group;
pub mod kinds;
pub mod laws;
pub mod layout;
pub mod layout_format;
pub mod numbers;
pub mod ops;
pub mod orbit_words;
pub mod order;
pub mod packing;
pub mod random;
pub mod roundtrip;
pub mod sign;
pub mod solvable;
pub mod state_arena;
pub mod state_format;
pub mod state_layout;
pub mod swaps;
pub mod table;
pub mod tagged;
pub mod text;
pub mod turns;
pub mod walks;

pub use arena::CubeArena;
pub use cube_vect::{CubeVect, Point3};
pub use error::CubeError;
