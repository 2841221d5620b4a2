//! Integers of 256 bits, and their products.
use crate::words::{U64Double, U64Words};
use vstd::prelude::*;

verus! {

/// An integer of 256 bits.
pub type U256 = U64Words<4>;

/// An integer of 512 bits.
pub type U512 = U64Double<4>;

} // verus!
