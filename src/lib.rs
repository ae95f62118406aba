use vstd::prelude::*;

pub mod ir;
pub mod grammar;
pub mod parser;
pub mod laws;
pub mod writer;

pub use ir::{JsonIR, JsonValue, ParseError};
pub use parser::{parse, Cursor};

verus! {

/// Sum of two sizes; the caller guarantees that it fits.
pub fn add(left: usize, right: usize) -> (r: usize)
    requires
        left + right <= usize::MAX,
    ensures
        r == left + right,
{
    left + right
}

} // verus!
