//! The arithmetic operators of [`Vec3`].
use vstd::prelude::*;
use vstd::std_specs::ops::{AddSpecImpl, DivSpecImpl, MulSpecImpl, NegSpecImpl, SubSpecImpl};
use core::ops::{Add, AddAssign, Div, Index, IndexMut, Mul, Neg, Sub};
use crate::fixed::{fixed_div, fixed_mul};
use crate::vector::{Vec3, V3};

verus! {

/// The vector that stores `v`, for a `v` that fits.
pub open spec fn stored(v: V3) -> Vec3 {
    Vec3 { x: v.x as i64, y: v.y as i64, z: v.z as i64 }
}

/// The component of `v` at `index`, for an index below three.
pub open spec fn component(v: Vec3, index: int) -> i64 {
    if index == 0 {
        v.x
    } else if index == 1 {
        v.y
    } else {
        v.z
    }
}

/// `v` with the component at `index` replaced by `value`.
pub open spec fn with_component(v: Vec3, index: int, value: i64) -> Vec3 {
    if index == 0 {
        Vec3 { x: value, ..v }
    } else if index == 1 {
        Vec3 { y: value, ..v }
    } else {
        Vec3 { z: value, ..v }
    }
}

// A + B
impl Add for Vec3 {
    type Output = Vec3;

    fn add(self, other: Vec3) -> (r: Vec3)
        ensures
            r@ == self@.plus(other@),
    {
        Vec3::from_array(&[self.x + other.x, self.y + other.y, self.z + other.z])
    }
}

impl AddSpecImpl for Vec3 {
    open spec fn obeys_add_spec() -> bool {
        true
    }

    open spec fn add_req(self, other: Vec3) -> bool {
        self@.plus(other@).fits()
    }

    open spec fn add_spec(self, other: Vec3) -> Vec3 {
        stored(self@.plus(other@))
    }
}

// A - B
impl Sub for Vec3 {
    type Output = Vec3;

    fn sub(self, other: Vec3) -> (r: Vec3)
        ensures
            r@ == self@.minus(other@),
    {
        Vec3::from_array(&[self.x - other.x, self.y - other.y, self.z - other.z])
    }
}

impl SubSpecImpl for Vec3 {
    open spec fn obeys_sub_spec() -> bool {
        true
    }

    open spec fn sub_req(self, other: Vec3) -> bool {
        self@.minus(other@).fits()
    }

    open spec fn sub_spec(self, other: Vec3) -> Vec3 {
        stored(self@.minus(other@))
    }
}

// A * B
impl Mul for Vec3 {
    type Output = Vec3;

    fn mul(self, rhs: Vec3) -> (r: Vec3)
        ensures
            r@ == self@.times(rhs@),
    {
        Vec3::from_array(
            &[fixed_mul(self.x, rhs.x), fixed_mul(self.y, rhs.y), fixed_mul(self.z, rhs.z)],
        )
    }
}

impl MulSpecImpl for Vec3 {
    open spec fn obeys_mul_spec() -> bool {
        true
    }

    open spec fn mul_req(self, rhs: Vec3) -> bool {
        self@.times(rhs@).fits()
    }

    open spec fn mul_spec(self, rhs: Vec3) -> Vec3 {
        stored(self@.times(rhs@))
    }
}

// c * A
impl Mul<Vec3> for i64 {
    type Output = Vec3;

    fn mul(self, rhs: Vec3) -> (r: Vec3)
        ensures
            r@ == rhs@.scaled(self as int),
    {
        Vec3::new(fixed_mul(self, rhs.x), fixed_mul(self, rhs.y), fixed_mul(self, rhs.z))
    }
}

impl MulSpecImpl<Vec3> for i64 {
    open spec fn obeys_mul_spec() -> bool {
        true
    }

    open spec fn mul_req(self, rhs: Vec3) -> bool {
        rhs@.scaled(self as int).fits()
    }

    open spec fn mul_spec(self, rhs: Vec3) -> Vec3 {
        stored(rhs@.scaled(self as int))
    }
}

// A / c
impl Div<i64> for Vec3 {
    type Output = Vec3;

    fn div(self, rhs: i64) -> (r: Vec3)
        ensures
            r@ == self@.over(rhs as int),
    {
        let new_vec = [fixed_div(self.x, rhs), fixed_div(self.y, rhs), fixed_div(self.z, rhs)];
        Vec3::from_array(&new_vec)
    }
}

impl DivSpecImpl<i64> for Vec3 {
    open spec fn obeys_div_spec() -> bool {
        true
    }

    open spec fn div_req(self, rhs: i64) -> bool {
        rhs != 0 && self@.over(rhs as int).fits()
    }

    open spec fn div_spec(self, rhs: i64) -> Vec3 {
        stored(self@.over(rhs as int))
    }
}

// - A
impl Neg for Vec3 {
    type Output = Vec3;

    fn neg(self) -> (r: Vec3)
        ensures
            r@ == self@.negated(),
    {
        Vec3::new(-self.x, -self.y, -self.z)
    }
}

impl NegSpecImpl for Vec3 {
    open spec fn obeys_neg_spec() -> bool {
        true
    }

    open spec fn neg_req(self) -> bool {
        self@.negated().fits()
    }

    open spec fn neg_spec(self) -> Vec3 {
        stored(self@.negated())
    }
}

// A[index]
impl Index<usize> for Vec3 {
    type Output = i64;

    fn index(&self, index: usize) -> (r: &i64)
        ensures
            *r == component(*self, index as int),
    {
        if index == 0 {
            &self.x
        } else if index == 1 {
            &self.y
        } else {
            &self.z
        }
    }
}

impl vstd::std_specs::core::IndexSpecImpl<usize> for Vec3 {
    open spec fn index_req(&self, index: &usize) -> bool {
        *index < 3
    }
}

impl AddAssign for Vec3 {
    fn add_assign(&mut self, rhs: Vec3)
        requires
            old(self)@.plus(rhs@).fits(),
        ensures
            final(self)@ == old(self)@.plus(rhs@),
    {
        self.x += rhs.x;
        self.y += rhs.y;
        self.z += rhs.z;
    }
}

impl IndexMut<usize> for Vec3 {
    fn index_mut(&mut self, index: usize) -> (r: &mut i64)
        requires
            index < 3,
        ensures
            *r == component(*old(self), index as int),
            *final(self) == with_component(*old(self), index as int, *final(r)),
    {
        if index == 0 {
            &mut self.x
        } else if index == 1 {
            &mut self.y
        } else {
            &mut self.z
        }
    }
}

} // verus!

