//! Verified pieces of a STARK prover over the BabyBear field.

pub mod accelerate;
pub mod acceptance;
pub mod babybear;
pub mod barycentric;
pub mod bits;
pub mod builder;
pub mod checks;
pub mod chip;
pub mod collected;
pub mod commit;
pub mod compile;
pub mod compiler;
pub mod constraints;
pub mod cosets;
pub mod cpu;
pub mod denominators;
pub mod device;
pub mod disjoint;
pub mod dispatch;
pub mod domain;
pub mod ext;
pub mod field;
pub mod fold;
pub mod folder;
pub mod fri;
pub mod honest;
pub mod interpolation;
pub mod ir;
pub mod lde;
pub mod lookup;
pub mod matrix;
pub mod memory;
pub mod merkle;
pub mod messages;
pub mod names;
pub mod opening;
pub mod ordering;
pub mod pcs;
pub mod permutation;
pub mod polynomials;
pub mod poseidon2;
pub mod prime;
pub mod program;
pub mod prover;
pub mod query;
pub mod quotient;
pub mod recompute;
pub mod recording;
pub mod reducer;
pub mod reduction;
pub mod ring;
pub mod sequential;
pub mod shape;
pub mod shard;
pub mod steps;
pub mod sums;
pub mod transcripts;
pub mod verify;
