//! Rays: a point of departure and a direction.
use vstd::prelude::*;
use crate::fixed::{fits_i64, fmul, quot, quot_wide, SCALE};
use crate::fixed::{lemma_product_fits, lemma_quot_bounds};
use crate::vector::{Point, Vec3, V3};

verus! {

/// The mathematical value of a [`Ray`].
pub struct RayView {
    pub origin: V3,
    pub direction: V3,
}

impl RayView {
    /// The point reached at parameter `t`: `origin + t * direction`.
    pub open spec fn at(self, t: int) -> V3 {
        self.origin.plus(self.direction.scaled(t))
    }

    /// The point reached at the parameter `n / a`, which need not be a whole
    /// number of millionths: each step `n * direction / a` is rounded once.
    pub open spec fn at_ratio(self, n: int, a: int) -> V3 {
        V3 {
            x: self.origin.x + quot(n * self.direction.x, a),
            y: self.origin.y + quot(n * self.direction.y, a),
            z: self.origin.z + quot(n * self.direction.z, a),
        }
    }
}

/// The line `origin + t * direction`, parameterized by the scalar `t`.
pub struct Ray {
    /// Where the ray starts: the point at parameter zero.
    pub origin: Point,
    /// The step from the point at one parameter to the point at the next.
    pub direction: Vec3,
}

impl View for Ray {
    type V = RayView;

    open spec fn view(&self) -> RayView {
        RayView { origin: self.origin@, direction: self.direction@ }
    }
}

impl Ray {
    /// Origin and direction both lie within the accepted range.
    pub open spec fn in_limit(&self) -> bool {
        self.origin.in_limit() && self.direction.in_limit()
    }

    /// Whether origin and direction both lie within the accepted range.
    pub fn is_in_limit(&self) -> (b: bool)
        ensures
            b == self.in_limit(),
    {
        self.origin.is_in_limit() && self.direction.is_in_limit()
    }

    /// The ray from `origin` along `direction`.
    pub fn new(origin: Point, direction: Vec3) -> (r: Ray)
        ensures
            r.origin == origin,
            r.direction == direction,
    {
        Ray { origin, direction }
    }

    /// The point reached at parameter `t`.
    pub fn at(&self, t: i64) -> (p: Point)
        requires
            self@.at(t as int).fits(),
        ensures
            p@ == self@.at(t as int),
    {
        Vec3::new(
            reach(self.origin.x, t, self.direction.x),
            reach(self.origin.y, t, self.direction.y),
            reach(self.origin.z, t, self.direction.z),
        )
    }

    /// The direction of the ray.
    pub fn direction(&self) -> (d: Vec3)
        ensures
            d == self.direction,
    {
        self.direction
    }

    /// The point of departure of the ray.
    pub fn origin(&self) -> (o: Point)
        ensures
            o == self.origin,
    {
        self.origin
    }
}

/// One component of a point on a ray: `o + t * d`.
fn reach(o: i64, t: i64, d: i64) -> (r: i64)
    requires
        fits_i64(o + fmul(t as int, d as int)),
    ensures
        r == o + fmul(t as int, d as int),
{
    proof {
        lemma_product_fits(t as int, d as int);
        lemma_quot_bounds(t * d, SCALE as int);
    }
    let step: i128 = quot_wide((t as i128) * (d as i128), SCALE as i128);
    ((o as i128) + step) as i64
}

} // verus!
