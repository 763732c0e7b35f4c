//! Stereo pairs of values, such as samples or whole buffers.
use vstd::prelude::*;

verus! {

/// Convenience type for making things stereo, e.g. individual samples or
/// whole buffers.
#[derive(Copy, Clone, Debug, PartialEq)]
pub struct Stereo<T> {
    pub left: T,
    pub right: T,
}

impl<T> Stereo<T> {
    /// A pair of a left and a right value.
    pub fn new(left: T, right: T) -> (r: Self)
        ensures
            r.left == left,
            r.right == right,
    {
        Self { left, right }
    }

    /// The same value on both channels.
    pub fn mono(mono: T) -> (r: Self)
        where
            T: Copy,
        ensures
            r.left == mono,
            r.right == mono,
    {
        Self::new(mono, mono)
    }
}

} // verus!
