//! The textual form of NBT.
use vstd::prelude::*;

pub mod read;
pub mod write;

verus! {

} // verus!
