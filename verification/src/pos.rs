//! Integer coordinates on the tile plane.

use vstd::prelude::*;

verus! {

/// An integer coordinate pair, used both for tile addresses and for thing
/// positions.
#[derive(Clone, Copy, PartialEq, Eq, Structural, Debug)]
pub struct Pos {
    pub x: i32,
    pub y: i32,
}

impl Pos {
    pub fn new(x: i32, y: i32) -> (p: Pos)
        ensures
            p == (Pos { x, y }),
    {
        Pos { x, y }
    }
}

} // verus!
