//! Keys tell siblings apart and carry an instance's identity from one pass to
//! the next.

use vstd::prelude::*;

verus! {

/// The identity of an element among its siblings.
#[derive(Clone, Copy, Debug, PartialEq, Eq, Hash, Structural)]
pub enum Key {
    /// A key that the caller chose.
    Named(u64),
    /// A key that stands for the element's position among its siblings.
    Position(usize),
}

impl Key {
    /// A key chosen by the caller.
    pub fn new(value: u64) -> (key: Key)
        ensures
            key == Key::Named(value),
    {
        Key::Named(value)
    }

    /// The key of the sibling at `index` that was given no key of its own.
    pub fn position(index: usize) -> (key: Key)
        ensures
            key == Key::Position(index),
    {
        Key::Position(index)
    }
}

} // verus!
