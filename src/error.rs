//! What can go wrong when building colors or editing a grid.
use vstd::prelude::*;

verus! {

/// A component of a color, named when its value is out of range.
#[derive(Debug, Clone, Copy, PartialEq, Eq, Structural, Hash)]
pub enum Component {
    Hue,
    Saturation,
    Lightness,
    Value,
    Cyan,
    Yellow,
    Magenta,
    Key,
}

#[derive(Debug, Clone, Copy, PartialEq, Eq, Structural, Hash)]
pub enum Error {
    /// A color component lies outside its documented bounds.
    OutOfRange(Component),
    /// A hex color literal is malformed.
    InvalidFormat,
    /// A grid range reaches past the current lines or columns.
    OutOfBounds,
    /// A range starts after its end.
    InvalidRange,
    /// A style key that the table does not hold.
    UnknownKey,
}

} // verus!
