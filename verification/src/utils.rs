//! Small helpers for working with pairs of things.

use vstd::prelude::*;

verus! {

/// One of two things.
#[derive(Debug, Clone, Copy, PartialEq, Eq, Structural)]
pub enum Which {
    /// The first.
    A,
    /// The second.
    B,
}

impl Which {
    /// The other one.
    pub fn flip(&self) -> (r: Which)
        ensures
            r == (match *self {
                Which::A => Which::B,
                Which::B => Which::A,
            }),
    {
        match self {
            Which::A => Which::B,
            Which::B => Which::A,
        }
    }
}

/// A pair of borrowed things, addressed by `Which`.
pub struct Pair<'a, T> {
    /// The first.
    pub a: &'a T,
    /// The second.
    pub b: &'a T,
}

impl<'a, T> Pair<'a, T> {
    /// The chosen one of the pair.
    pub fn get(&'a self, which: Which) -> (r: &'a T)
        ensures
            *r == (match which {
                Which::A => *self.a,
                Which::B => *self.b,
            }),
    {
        match which {
            Which::A => self.a,
            Which::B => self.b,
        }
    }
}

} // verus!
