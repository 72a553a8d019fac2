//! A plain grid point.
use vstd::prelude::*;

verus! {

/// An unsigned grid position.
#[derive(Clone, Copy, PartialEq, Eq, Structural, Debug)]
pub struct Point {
    pub x: u32,
    pub y: u32,
}

} // verus!
