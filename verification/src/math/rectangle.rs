//! Axis-aligned rectangles.
use crate::fixed::{lemma_mul_sign, HALF};
use crate::math::V2;
use vstd::prelude::*;

verus! {

/// A rectangle from its lower corner `min` to its upper corner `max`.
#[derive(Copy, Clone, Debug, PartialEq, Eq, Structural)]
pub struct Rect2 {
    pub min: V2,
    pub max: V2,
}

impl Rect2 {
    /// The lower corner is not beyond the upper one.
    pub open spec fn wf(&self) -> bool {
        self.min.x <= self.max.x && self.min.y <= self.max.y
    }

    /// Whether `test` lies in the rectangle: the lower edges belong to it,
    /// the upper edges do not.
    pub open spec fn spec_contains(&self, test: V2) -> bool {
        self.min.x <= test.x < self.max.x && self.min.y <= test.y < self.max.y
    }

    /// The rectangle grown by `radius` on every side.
    pub open spec fn spec_add_radius(&self, radius: V2) -> Rect2 {
        Rect2 { min: self.min.spec_minus(radius), max: self.max.spec_plus(radius) }
    }

    /// The rectangle from `min` to `max`.
    pub fn new_min_max(min: V2, max: V2) -> (r: Self)
        requires
            min.x <= max.x,
            min.y <= max.y,
        ensures
            r == (Rect2 { min, max }),
            r.wf(),
    {
        Rect2 { min, max }
    }

    /// The rectangle of the size `dim` whose lower corner is `min`.
    pub fn new_min_dmin(min: V2, dim: V2) -> (r: Self)
        requires
            dim.x >= 0,
            dim.y >= 0,
        ensures
            r == (Rect2 { min, max: min.spec_plus(dim) }),
            r.wf(),
    {
        Rect2 { min, max: min.plus(dim) }
    }

    /// The rectangle that reaches `half_dim` from `center` to every side.
    pub fn new_center_half_dim(center: V2, half_dim: V2) -> (r: Self)
        requires
            half_dim.x >= 0,
            half_dim.y >= 0,
        ensures
            r == (Rect2 { min: center.spec_minus(half_dim), max: center.spec_plus(half_dim) }),
            r.wf(),
    {
        Rect2 { min: center.minus(half_dim), max: center.plus(half_dim) }
    }

    /// The rectangle of the size `dim` around `center`.
    pub fn new_center_dim(center: V2, dim: V2) -> (r: Self)
        requires
            dim.x >= 0,
            dim.y >= 0,
        ensures
            r == (Rect2 {
                min: center.spec_minus(dim.spec_scaled(HALF)),
                max: center.spec_plus(dim.spec_scaled(HALF)),
            }),
            r.wf(),
    {
        proof {
            lemma_mul_sign(dim.x as int, HALF as int);
            lemma_mul_sign(dim.y as int, HALF as int);
        }
        Self::new_center_half_dim(center, dim.scaled(HALF))
    }

    /// Whether `test` lies in the rectangle: the lower edges belong to it,
    /// the upper edges do not.
    pub fn contains(&self, test: V2) -> (r: bool)
        ensures
            r == self.spec_contains(test),
    {
        test.x() >= self.min.x() && test.y() >= self.min.y() && test.x() < self.max.x()
            && test.y() < self.max.y()
    }

    /// The point halfway between the corners.
    pub fn center(&self) -> (r: V2)
        ensures
            r == self.min.spec_plus(self.max).spec_scaled(HALF),
    {
        self.min.plus(self.max).scaled(HALF)
    }

    /// The rectangle grown by `radius` on every side.
    pub fn add_radius(&self, radius: V2) -> (r: Self)
        requires
            self.wf(),
            radius.x >= 0,
            radius.y >= 0,
        ensures
            r == self.spec_add_radius(radius),
            r.wf(),
    {
        Rect2 { min: self.min.minus(radius), max: self.max.plus(radius) }
    }

    /// The lower corner.
    pub fn min(&self) -> (r: V2)
        ensures
            r == self.min,
    {
        self.min
    }

    /// The upper corner.
    pub fn max(&self) -> (r: V2)
        ensures
            r == self.max,
    {
        self.max
    }
}

} // verus!
