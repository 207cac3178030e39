//! GPU-compatible integer vector types.
//!
//! They mirror WGSL's `vec2<u32>` and `vec2<i32>` and implement
//! componentwise arithmetic and `From` conversions to and from plain
//! arrays. Arithmetic that would overflow,
//! and division by zero, are outside the operators' domains.

use std::ops::{Add, Div, Mul, Sub};
use vstd::prelude::*;
use vstd::std_specs::convert::FromSpecImpl;
use vstd::std_specs::ops::{AddSpecImpl, DivSpecImpl, MulSpecImpl, SubSpecImpl};

verus! {

/// Rust's signed division, which truncates toward zero.
pub open spec fn trunc_div(a: int, b: int) -> int {
    if a >= 0 {
        a / b
    } else {
        -((-a) / b)
    }
}

/// 2D unsigned integer vector (pixel sizes, counts).
#[derive(Clone, Copy, Debug, Default, PartialEq, Eq, Structural)]
pub struct Vec2u {
    /// The x component.
    pub x: u32,
    /// The y component.
    pub y: u32,
}

/// 2D signed integer vector (pixel offsets).
#[derive(Clone, Copy, Debug, Default, PartialEq, Eq, Structural)]
pub struct Vec2i {
    /// The x component.
    pub x: i32,
    /// The y component.
    pub y: i32,
}

// ── Vec2u ───────────────────────────────────────────────────────────────

impl Vec2u {
    /// Creates a vector from its components.
    pub fn new(x: u32, y: u32) -> (r: Self)
        ensures
            r == (Vec2u { x, y }),
    {
        Vec2u { x, y }
    }

    /// A vector with both components set to `v`.
    pub fn splat(v: u32) -> (r: Self)
        ensures
            r == (Vec2u { x: v, y: v }),
    {
        Vec2u { x: v, y: v }
    }

    /// Creates a vector from a `[x, y]` array.
    pub fn from_array(a: [u32; 2]) -> (r: Self)
        ensures
            r == (Vec2u { x: a@[0], y: a@[1] }),
    {
        Vec2u { x: a[0], y: a[1] }
    }

    /// Converts into a `[x, y]` array.
    pub fn to_array(self) -> (r: [u32; 2])
        ensures
            r@ == seq![self.x, self.y],
    {
        let r = [self.x, self.y];
        proof {
            assert(r@ =~= seq![self.x, self.y]);
        }
        r
    }
}

impl From<[u32; 2]> for Vec2u {
    fn from(a: [u32; 2]) -> (r: Self) {
        Self::from_array(a)
    }
}

impl FromSpecImpl<[u32; 2]> for Vec2u {
    open spec fn obeys_from_spec() -> bool {
        true
    }

    open spec fn from_spec(a: [u32; 2]) -> Vec2u {
        Vec2u { x: a@[0], y: a@[1] }
    }
}

impl From<Vec2u> for [u32; 2] {
    fn from(v: Vec2u) -> (r: Self) {
        v.to_array()
    }
}

impl FromSpecImpl<Vec2u> for [u32; 2] {
    open spec fn obeys_from_spec() -> bool {
        true
    }

    open spec fn from_spec(v: Vec2u) -> [u32; 2] {
        [v.x, v.y]
    }
}

impl Add for Vec2u {
    type Output = Self;

    fn add(self, rhs: Self) -> (r: Self) {
        Vec2u::new(self.x + rhs.x, self.y + rhs.y)
    }
}

impl AddSpecImpl for Vec2u {
    open spec fn obeys_add_spec() -> bool {
        true
    }

    open spec fn add_req(self, rhs: Vec2u) -> bool {
        self.x + rhs.x <= u32::MAX && self.y + rhs.y <= u32::MAX
    }

    open spec fn add_spec(self, rhs: Vec2u) -> Vec2u {
        Vec2u { x: (self.x + rhs.x) as u32, y: (self.y + rhs.y) as u32 }
    }
}

impl Sub for Vec2u {
    type Output = Self;

    fn sub(self, rhs: Self) -> (r: Self) {
        Vec2u::new(self.x - rhs.x, self.y - rhs.y)
    }
}

impl SubSpecImpl for Vec2u {
    open spec fn obeys_sub_spec() -> bool {
        true
    }

    open spec fn sub_req(self, rhs: Vec2u) -> bool {
        rhs.x <= self.x && rhs.y <= self.y
    }

    open spec fn sub_spec(self, rhs: Vec2u) -> Vec2u {
        Vec2u { x: (self.x - rhs.x) as u32, y: (self.y - rhs.y) as u32 }
    }
}

impl Mul<u32> for Vec2u {
    type Output = Self;

    fn mul(self, rhs: u32) -> (r: Self) {
        Vec2u::new(self.x * rhs, self.y * rhs)
    }
}

impl MulSpecImpl<u32> for Vec2u {
    open spec fn obeys_mul_spec() -> bool {
        true
    }

    open spec fn mul_req(self, rhs: u32) -> bool {
        self.x * rhs <= u32::MAX && self.y * rhs <= u32::MAX
    }

    open spec fn mul_spec(self, rhs: u32) -> Vec2u {
        Vec2u { x: (self.x * rhs) as u32, y: (self.y * rhs) as u32 }
    }
}

impl Div<u32> for Vec2u {
    type Output = Self;

    fn div(self, rhs: u32) -> (r: Self) {
        Vec2u::new(self.x / rhs, self.y / rhs)
    }
}

impl DivSpecImpl<u32> for Vec2u {
    open spec fn obeys_div_spec() -> bool {
        true
    }

    open spec fn div_req(self, rhs: u32) -> bool {
        rhs != 0
    }

    open spec fn div_spec(self, rhs: u32) -> Vec2u {
        Vec2u { x: self.x / rhs, y: self.y / rhs }
    }
}

// ── Vec2i ───────────────────────────────────────────────────────────────

impl Vec2i {
    /// Creates a vector from its components.
    pub fn new(x: i32, y: i32) -> (r: Self)
        ensures
            r == (Vec2i { x, y }),
    {
        Vec2i { x, y }
    }

    /// A vector with both components set to `v`.
    pub fn splat(v: i32) -> (r: Self)
        ensures
            r == (Vec2i { x: v, y: v }),
    {
        Vec2i { x: v, y: v }
    }

    /// Creates a vector from a `[x, y]` array.
    pub fn from_array(a: [i32; 2]) -> (r: Self)
        ensures
            r == (Vec2i { x: a@[0], y: a@[1] }),
    {
        Vec2i { x: a[0], y: a[1] }
    }

    /// Converts into a `[x, y]` array.
    pub fn to_array(self) -> (r: [i32; 2])
        ensures
            r@ == seq![self.x, self.y],
    {
        let r = [self.x, self.y];
        proof {
            assert(r@ =~= seq![self.x, self.y]);
        }
        r
    }
}

impl From<[i32; 2]> for Vec2i {
    fn from(a: [i32; 2]) -> (r: Self) {
        Self::from_array(a)
    }
}

impl FromSpecImpl<[i32; 2]> for Vec2i {
    open spec fn obeys_from_spec() -> bool {
        true
    }

    open spec fn from_spec(a: [i32; 2]) -> Vec2i {
        Vec2i { x: a@[0], y: a@[1] }
    }
}

impl Add for Vec2i {
    type Output = Self;

    fn add(self, rhs: Self) -> (r: Self) {
        Vec2i::new(self.x + rhs.x, self.y + rhs.y)
    }
}

impl AddSpecImpl for Vec2i {
    open spec fn obeys_add_spec() -> bool {
        true
    }

    open spec fn add_req(self, rhs: Vec2i) -> bool {
        i32::MIN <= self.x + rhs.x <= i32::MAX && i32::MIN <= self.y + rhs.y <= i32::MAX
    }

    open spec fn add_spec(self, rhs: Vec2i) -> Vec2i {
        Vec2i { x: (self.x + rhs.x) as i32, y: (self.y + rhs.y) as i32 }
    }
}

impl Sub for Vec2i {
    type Output = Self;

    fn sub(self, rhs: Self) -> (r: Self) {
        Vec2i::new(self.x - rhs.x, self.y - rhs.y)
    }
}

impl SubSpecImpl for Vec2i {
    open spec fn obeys_sub_spec() -> bool {
        true
    }

    open spec fn sub_req(self, rhs: Vec2i) -> bool {
        i32::MIN <= self.x - rhs.x <= i32::MAX && i32::MIN <= self.y - rhs.y <= i32::MAX
    }

    open spec fn sub_spec(self, rhs: Vec2i) -> Vec2i {
        Vec2i { x: (self.x - rhs.x) as i32, y: (self.y - rhs.y) as i32 }
    }
}

impl Mul<i32> for Vec2i {
    type Output = Self;

    fn mul(self, rhs: i32) -> (r: Self) {
        Vec2i::new(self.x * rhs, self.y * rhs)
    }
}

impl MulSpecImpl<i32> for Vec2i {
    open spec fn obeys_mul_spec() -> bool {
        true
    }

    open spec fn mul_req(self, rhs: i32) -> bool {
        i32::MIN <= self.x * rhs <= i32::MAX && i32::MIN <= self.y * rhs <= i32::MAX
    }

    open spec fn mul_spec(self, rhs: i32) -> Vec2i {
        Vec2i { x: (self.x * rhs) as i32, y: (self.y * rhs) as i32 }
    }
}

impl Div<i32> for Vec2i {
    type Output = Self;

    fn div(self, rhs: i32) -> (r: Self) {
        Vec2i::new(self.x / rhs, self.y / rhs)
    }
}

impl DivSpecImpl<i32> for Vec2i {
    open spec fn obeys_div_spec() -> bool {
        true
    }

    open spec fn div_req(self, rhs: i32) -> bool {
        rhs != 0 && !(self.x == i32::MIN && rhs == -1) && !(self.y == i32::MIN && rhs == -1)
    }

    open spec fn div_spec(self, rhs: i32) -> Vec2i {
        Vec2i { x: trunc_div(self.x as int, rhs as int) as i32, y: trunc_div(self.y as int, rhs as int) as i32 }
    }
}

} // verus!
