//! Surfaces that take no parameter: their shape is fixed by their equation.
use vstd::prelude::*;

verus! {

/// The cross-cap surface.
#[derive(Clone, Copy, PartialEq, Eq, Debug)]
pub struct CrossCap {}

/// Steiner's Roman surface.
#[derive(Clone, Copy, PartialEq, Eq, Debug)]
pub struct Steiner {}

/// A second form of Steiner's surface.
#[derive(Clone, Copy, PartialEq, Eq, Debug)]
pub struct Steiner2 {}

impl CrossCap {
    pub fn new() -> (surface: CrossCap)
        ensures
            surface == (CrossCap {}),
    {
        CrossCap {}
    }
}

impl Steiner {
    pub fn new() -> (surface: Steiner)
        ensures
            surface == (Steiner {}),
    {
        Steiner {}
    }
}

impl Steiner2 {
    pub fn new() -> (surface: Steiner2)
        ensures
            surface == (Steiner2 {}),
    {
        Steiner2 {}
    }
}

} // verus!
