//! Vectors of the plane.

use crate::float::F32;
use vstd::prelude::*;

verus! {

/// 1e-8: a shorter vector has no direction of its own.
pub const NO_DIRECTION: u32 = 0x322b_cc77;

/// -1.0
pub const MINUS_ONE: u32 = 0xbf80_0000;

/// A vector, or a point, of the plane.
#[derive(Clone, Copy, Debug)]
pub struct Vec2 {
    pub x: F32,
    pub y: F32,
}

impl Vec2 {
    pub open spec fn spec_zero() -> Vec2 {
        Vec2 { x: F32 { bits: 0 }, y: F32 { bits: 0 } }
    }

    pub open spec fn spec_dot(self, o: Vec2) -> F32 {
        self.x.spec_mul(o.x).spec_add(self.y.spec_mul(o.y))
    }

    /// The vector turned left by a right angle.
    pub open spec fn spec_perp(self) -> Vec2 {
        Vec2 { x: self.y.spec_neg(), y: self.x }
    }

    pub open spec fn spec_length_sq(self) -> F32 {
        self.x.spec_mul(self.x).spec_add(self.y.spec_mul(self.y))
    }

    pub open spec fn spec_length(self) -> F32 {
        self.spec_length_sq().spec_sqrt()
    }

    /// The vector divided by its length; straight up if it is too short.
    pub open spec fn spec_normalize(self) -> Vec2 {
        let len = self.spec_length();
        if len.spec_lt(F32 { bits: NO_DIRECTION }) {
            Vec2 { x: F32 { bits: 0 }, y: F32 { bits: MINUS_ONE } }
        } else {
            Vec2 { x: self.x.spec_div(len), y: self.y.spec_div(len) }
        }
    }

    pub open spec fn spec_add(self, o: Vec2) -> Vec2 {
        Vec2 { x: self.x.spec_add(o.x), y: self.y.spec_add(o.y) }
    }

    pub open spec fn spec_sub(self, o: Vec2) -> Vec2 {
        Vec2 { x: self.x.spec_sub(o.x), y: self.y.spec_sub(o.y) }
    }

    pub open spec fn spec_scale(self, s: F32) -> Vec2 {
        Vec2 { x: self.x.spec_mul(s), y: self.y.spec_mul(s) }
    }

    /// The vector turned by the angle with the given sine and cosine.
    pub open spec fn spec_rotate(self, sin: F32, cos: F32) -> Vec2 {
        Vec2 {
            x: self.x.spec_mul(cos).spec_sub(self.y.spec_mul(sin)),
            y: self.x.spec_mul(sin).spec_add(self.y.spec_mul(cos)),
        }
    }

    pub fn new(x: F32, y: F32) -> (r: Vec2)
        ensures
            r == (Vec2 { x, y }),
    {
        Vec2 { x, y }
    }

    pub fn zero() -> (r: Vec2)
        ensures
            r == Vec2::spec_zero(),
    {
        Vec2 { x: F32::zero(), y: F32::zero() }
    }

    pub fn from_tuple(t: (F32, F32)) -> (r: Vec2)
        ensures
            r == (Vec2 { x: t.0, y: t.1 }),
    {
        Vec2 { x: t.0, y: t.1 }
    }

    pub fn dot(self, o: Vec2) -> (r: F32)
        ensures
            r == self.spec_dot(o),
    {
        self.x.mul(o.x).add(self.y.mul(o.y))
    }

    /// The vector turned left by a right angle.
    pub fn perp(self) -> (r: Vec2)
        ensures
            r == self.spec_perp(),
    {
        Vec2 { x: self.y.neg(), y: self.x }
    }

    pub fn length_sq(self) -> (r: F32)
        ensures
            r == self.spec_length_sq(),
    {
        self.x.mul(self.x).add(self.y.mul(self.y))
    }

    pub fn length(self) -> (r: F32)
        ensures
            r == self.spec_length(),
    {
        self.length_sq().sqrt()
    }

    /// The vector divided by its length; straight up if it is too short.
    pub fn normalize(self) -> (r: Vec2)
        ensures
            r == self.spec_normalize(),
    {
        let len = self.length();
        let limit = F32 { bits: NO_DIRECTION };
        if len.lt(limit) {
            Vec2 { x: F32::zero(), y: F32 { bits: MINUS_ONE } }
        } else {
            Vec2 { x: self.x.div(len), y: self.y.div(len) }
        }
    }

    pub fn add(self, o: Vec2) -> (r: Vec2)
        ensures
            r == self.spec_add(o),
    {
        Vec2 { x: self.x.add(o.x), y: self.y.add(o.y) }
    }

    pub fn sub(self, o: Vec2) -> (r: Vec2)
        ensures
            r == self.spec_sub(o),
    {
        Vec2 { x: self.x.sub(o.x), y: self.y.sub(o.y) }
    }

    pub fn scale(self, s: F32) -> (r: Vec2)
        ensures
            r == self.spec_scale(s),
    {
        Vec2 { x: self.x.mul(s), y: self.y.mul(s) }
    }

    /// The vector turned by the angle with the given sine and cosine.
    pub fn rotate(self, sin: F32, cos: F32) -> (r: Vec2)
        ensures
            r == self.spec_rotate(sin, cos),
    {
        Vec2 {
            x: self.x.mul(cos).sub(self.y.mul(sin)),
            y: self.x.mul(sin).add(self.y.mul(cos)),
        }
    }
}

} // verus!
