//! Integers of 384 bits, and their products.
use crate::words::{U64Double, U64Words};
use vstd::prelude::*;

verus! {

/// An integer of 384 bits.
pub type U384 = U64Words<6>;

/// An integer of 768 bits.
pub type U768 = U64Double<6>;

} // verus!
