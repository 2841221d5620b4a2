//! Fixed-width unsigned integers and folding of proofs.
pub mod circuit;
pub mod commitment;
pub mod completeness;
pub mod completeness_oneshot;
pub mod constraint_system;
pub mod domain;
pub mod error;
pub mod error_polynomial;
pub mod evaluator;
pub mod fft;
pub mod field;
pub mod folding;
pub mod folding_prover;
pub mod folding_verifier;
pub mod fq;
pub mod gate_laws;
pub mod goldilocks;
pub mod interpolation;
pub mod limbs;
pub mod linear;
pub mod opening_laws;
pub mod parallel;
pub mod point_scheme;
pub mod polynomial;
pub mod powers;
pub mod prover_oneshot;
pub mod residues;
pub mod roots;
pub mod round_laws;
pub mod traces;
pub mod transcript;
pub mod u256;
pub mod u384;
pub mod verifier_oneshot;
pub mod word_laws;
pub mod words;
