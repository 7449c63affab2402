//! Styled terminal text: colors, emphasis flags and styles with their escape
//! sequences, an interning table for styles, and a character grid that renders
//! with as few style transitions as possible.
use vstd::prelude::*;

pub mod error;
pub mod style;
pub mod terminal;
pub mod text;

verus! {

} // verus!
