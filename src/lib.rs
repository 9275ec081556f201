//! The MiMC permutation arithmetized three ways: as a bulletproof R1CS gadget,
//! as a Groth16 circuit and as a STARK execution trace with its AIR.
//!
//! Field elements are held as plain values (a `u128`, or 32 little-endian
//! bytes); the field arithmetic itself is done by the proving libraries.
pub mod bulletproof;
pub mod field;
pub mod permutation;
pub mod snark;
pub mod stark;

use vstd::prelude::*;

verus! {

/// Number of MiMC rounds used by the demonstrations; of the form `2^k - 1`.
pub const MIMC_ROUNDS: usize = 255;

/// Seed of the pseudo-random stream that yields constants and preimages.
pub const RANDOMNESS_SEED: [u8; 32] = [
    24u8, 24u8, 24u8, 24u8, 24u8, 24u8, 24u8, 24u8, 24u8, 24u8, 24u8, 24u8, 24u8, 24u8, 24u8, 24u8,
    24u8, 24u8, 24u8, 24u8, 24u8, 24u8, 24u8, 24u8, 24u8, 24u8, 24u8, 24u8, 24u8, 24u8, 24u8, 24u8,
];

/// Number of timed samples taken by the benchmarks.
pub const SAMPLES: u32 = 50;

} // verus!
