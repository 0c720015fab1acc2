//! Two-dimensional vectors of fixed-point scalars.
use crate::fixed::{
    fx_add, fx_mul, fx_neg, fx_sqrt, fx_sub, is_sqrt, spec_add, spec_mul, spec_neg, spec_sqrt,
    spec_sub,
};
use vstd::prelude::*;

pub mod rectangle;

verus! {

/// A vector, or a pair of bounds: `min` and `max` read the same two fields as
/// `x` and `y`.
#[derive(Copy, Clone, Debug, PartialEq, Eq, Structural)]
pub struct V2 {
    pub x: i64,
    pub y: i64,
}

impl Default for V2 {
    fn default() -> (r: Self)
        ensures
            r == V2::zero(),
    {
        V2 { x: 0, y: 0 }
    }
}

impl V2 {
    /// The vector with both components zero.
    pub open spec fn zero() -> V2 {
        V2 { x: 0, y: 0 }
    }

    /// The sum, component by component.
    pub open spec fn spec_plus(self, rhs: V2) -> V2 {
        V2 { x: spec_add(self.x as int, rhs.x as int) as i64, y: spec_add(self.y as int, rhs.y as int) as i64 }
    }

    /// The difference, component by component.
    pub open spec fn spec_minus(self, rhs: V2) -> V2 {
        V2 { x: spec_sub(self.x as int, rhs.x as int) as i64, y: spec_sub(self.y as int, rhs.y as int) as i64 }
    }

    /// Both components times the scalar `k`.
    pub open spec fn spec_scaled(self, k: i64) -> V2 {
        V2 { x: spec_mul(self.x as int, k as int) as i64, y: spec_mul(self.y as int, k as int) as i64 }
    }

    /// Both components with their sign turned.
    pub open spec fn spec_negated(self) -> V2 {
        V2 { x: spec_neg(self.x as int) as i64, y: spec_neg(self.y as int) as i64 }
    }

    /// The vector with its components swapped.
    pub open spec fn spec_rev(self) -> V2 {
        V2 { x: self.y, y: self.x }
    }

    /// The dot product.
    pub open spec fn spec_inner(self, rhs: V2) -> int {
        spec_add(spec_mul(self.x as int, rhs.x as int), spec_mul(self.y as int, rhs.y as int))
    }

    /// The squared length.
    pub open spec fn spec_len_sq(self) -> int {
        self.spec_inner(self)
    }

    /// The length: the square root of the squared length, rounded down.
    pub open spec fn spec_len(self) -> int {
        spec_sqrt(self.spec_len_sq())
    }

    /// The vector (`x`, `y`).
    pub fn new(x: i64, y: i64) -> (r: Self)
        ensures
            r == (V2 { x, y }),
    {
        V2 { x, y }
    }

    /// The first component.
    pub fn x(&self) -> (r: i64)
        ensures
            r == self.x,
    {
        self.x
    }

    /// The second component.
    pub fn y(&self) -> (r: i64)
        ensures
            r == self.y,
    {
        self.y
    }

    /// The lower bound, where the pair holds bounds.
    pub fn min(&self) -> (r: i64)
        ensures
            r == self.x,
    {
        self.x
    }

    /// The upper bound, where the pair holds bounds.
    pub fn max(&self) -> (r: i64)
        ensures
            r == self.y,
    {
        self.y
    }

    /// The sum, component by component.
    pub fn plus(self, rhs: V2) -> (r: V2)
        ensures
            r == self.spec_plus(rhs),
    {
        V2 { x: fx_add(self.x, rhs.x), y: fx_add(self.y, rhs.y) }
    }

    /// The difference, component by component.
    pub fn minus(self, rhs: V2) -> (r: V2)
        ensures
            r == self.spec_minus(rhs),
    {
        V2 { x: fx_sub(self.x, rhs.x), y: fx_sub(self.y, rhs.y) }
    }

    /// Both components times the scalar `k`.
    pub fn scaled(self, k: i64) -> (r: V2)
        ensures
            r == self.spec_scaled(k),
    {
        V2 { x: fx_mul(self.x, k), y: fx_mul(self.y, k) }
    }

    /// Both components with their sign turned.
    pub fn negated(self) -> (r: V2)
        ensures
            r == self.spec_negated(),
    {
        V2 { x: fx_neg(self.x), y: fx_neg(self.y) }
    }

    /// The dot product.
    pub fn inner(self, rhs: V2) -> (r: i64)
        ensures
            r == self.spec_inner(rhs),
    {
        fx_add(fx_mul(self.x, rhs.x), fx_mul(self.y, rhs.y))
    }

    /// The squared length.
    pub fn len_sq(self) -> (r: i64)
        ensures
            r == self.spec_len_sq(),
    {
        self.inner(self)
    }

    /// The length: the square root of the squared length, rounded down.
    pub fn len(self) -> (r: i64)
        ensures
            r == self.spec_len(),
            is_sqrt(self.spec_len_sq(), r as int),
    {
        fx_sqrt(self.len_sq())
    }

    /// The vector with its components swapped.
    pub fn rev(self) -> (r: V2)
        ensures
            r == self.spec_rev(),
    {
        V2 { x: self.y, y: self.x }
    }
}

} // verus!
