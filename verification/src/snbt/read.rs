//! Reading SNBT: tokens, a syntax tree, and its conversion to values.
use vstd::prelude::*;

pub mod convert;
pub mod parse;
pub mod tokenize;

verus! {

/// A byte offset into the source text.
#[derive(Debug, Clone, Copy, PartialEq, Eq, Structural)]
pub struct SourcePosition(pub usize);

/// The byte range `start..end` of the source text.
#[derive(Debug, Clone, Copy, PartialEq, Eq, Structural)]
pub struct Span {
    pub start: SourcePosition,
    pub end: SourcePosition,
}

} // verus!
