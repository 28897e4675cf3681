//! What the forest builders ask of a shape, and what a shape may offer
//! besides.

use vstd::prelude::*;

pub mod edges;
pub mod ray;

verus! {

/// A shape that can tell whether another lies inside it. The forest
/// builders take the answer as a relation between shapes, `encloses`: asked
/// twice about the same two shapes, `contains` answers alike. What they
/// state of a forest, they state of that relation; that an implementation
/// outside this library decides it is taken on trust.
pub trait Container<Other = Self> {
    /// The containment relation that `contains` decides.
    spec fn encloses(&self, other: &Other) -> bool;

    /// Whether `other` lies inside `self`.
    fn contains(&self, other: &Other) -> (inside: bool)
        ensures
            inside == self.encloses(other),
    ;
}

/// A shape that can tell whether it crosses another. The generator takes
/// the answer as a relation between shapes, `crosses`; that an
/// implementation outside this library decides it is taken on trust.
pub trait Intersecter<Other = Self> {
    /// The relation that `intersects` decides.
    spec fn crosses(&self, other: &Other) -> bool;

    /// Whether `self` and `other` cross.
    fn intersects(&self, other: &Other) -> (crossing: bool)
        ensures
            crossing == self.crosses(other),
    ;
}

/// A shape that can draw itself as an SVG element.
pub trait SVG {
    /// The element, as text.
    fn to_svg(&self) -> String;
}

/// The error of normalising a vector whose norm is zero.
#[derive(Clone, Copy, Debug)]
pub struct ZeroNormError;

impl ZeroNormError {
    /// The error's message.
    pub fn message(&self) -> (text: String)
        ensures
            text@ == "invalid norm value: it cannot be equal to zero"@,
    {
        String::from_str("invalid norm value: it cannot be equal to zero")
    }
}

} // verus!
