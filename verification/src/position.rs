//! A 2D point tagged with a type-level scale factor: 1 for pixel
//! resolution, 8 for walk-tile resolution, 32 for build-tile resolution.
//! A conversion between scales is an explicit, scale-aware multiply or
//! divide, never an implicit cast.

use vstd::prelude::*;
use core::marker::PhantomData;

verus! {

/// A type-level scale factor.
pub trait Scale {
    spec fn factor_spec() -> u64;

    fn factor() -> (r: u64)
        ensures
            r == Self::factor_spec(),
    ;
}

/// Pixel resolution.
pub struct Scale1;

/// Walk-tile resolution: 8 pixels to the tile.
pub struct Scale8;

/// Build-tile resolution: 32 pixels to the tile.
pub struct Scale32;

impl Scale for Scale1 {
    open spec fn factor_spec() -> u64 {
        1
    }

    fn factor() -> u64 {
        1
    }
}

impl Scale for Scale8 {
    open spec fn factor_spec() -> u64 {
        8
    }

    fn factor() -> u64 {
        8
    }
}

impl Scale for Scale32 {
    open spec fn factor_spec() -> u64 {
        32
    }

    fn factor() -> u64 {
        32
    }
}

/// A coordinate pair at scale `S`.
#[derive(Debug)]
pub struct Point<S> {
    pub x: i32,
    pub y: i32,
    pub scale: PhantomData<S>,
}

pub type Position = Point<Scale1>;

pub type WalkPosition = Point<Scale8>;

pub type TilePosition = Point<Scale32>;

/// Truncating division, as the machine divides: the quotient is rounded
/// toward zero.
pub open spec fn tdiv(a: int, b: int) -> int {
    if a >= 0 {
        a / b
    } else {
        -((-a) / b)
    }
}

/// Truncating remainder, the one the machine's `%` computes.
pub open spec fn trem(a: int, b: int) -> int {
    if a >= 0 {
        a % b
    } else {
        -((-a) % b)
    }
}

impl<S: Scale> Point<S> {
    pub fn new(x: i32, y: i32) -> (p: Self)
        ensures
            p.x == x,
            p.y == y,
    {
        Point { x, y, scale: PhantomData }
    }

    /// The scale factor of this point type.
    pub fn get_scale() -> (r: u64)
        ensures
            r == S::factor_spec(),
    {
        S::factor()
    }

    /// Converts a point of scale `F` to scale `S`: multiplying the
    /// coordinates up when the source scale is the coarser one, dividing
    /// them down (truncating) otherwise.
    pub fn from<F: Scale>(other: Point<F>) -> (p: Self)
        requires
            S::factor_spec() >= 1,
            F::factor_spec() >= 1,
            F::factor_spec() > S::factor_spec() ==> F::factor_spec() / S::factor_spec()
                <= 0x7fff_ffff && -0x8000_0000 <= other.x * (F::factor_spec() / S::factor_spec())
                <= 0x7fff_ffff && -0x8000_0000 <= other.y * (F::factor_spec() / S::factor_spec())
                <= 0x7fff_ffff,
            F::factor_spec() <= S::factor_spec() ==> S::factor_spec() / F::factor_spec()
                <= 0x7fff_ffff,
        ensures
            F::factor_spec() > S::factor_spec() ==> p.x == other.x * (F::factor_spec()
                / S::factor_spec()) && p.y == other.y * (F::factor_spec() / S::factor_spec()),
            F::factor_spec() <= S::factor_spec() ==> p.x == tdiv(
                other.x as int,
                (S::factor_spec() / F::factor_spec()) as int,
            ) && p.y == tdiv(other.y as int, (S::factor_spec() / F::factor_spec()) as int),
    {
        let self_scale = S::factor();
        let other_scale = F::factor();
        if other_scale > self_scale {
            let scalar = (other_scale / self_scale) as i32;
            Point { x: other.x * scalar, y: other.y * scalar, scale: PhantomData }
        } else {
            proof {
                vstd::arithmetic::div_mod::lemma_div_non_zero(
                    S::factor_spec() as int,
                    F::factor_spec() as int,
                );
            }
            let scalar = (self_scale / other_scale) as i32;
            Point { x: other.x / scalar, y: other.y / scalar, scale: PhantomData }
        }
    }
}

impl<S: Scale> Default for Point<S> {
    /// The origin.
    fn default() -> (p: Self)
        ensures
            p.x == 0,
            p.y == 0,
    {
        Point { x: 0, y: 0, scale: PhantomData }
    }
}

/// Two points are equal when both coordinates agree.
impl<S: Scale> PartialEq for Point<S> {
    fn eq(&self, other: &Self) -> (r: bool) {
        self.x == other.x && self.y == other.y
    }
}

impl<S: Scale> vstd::std_specs::cmp::PartialEqSpecImpl for Point<S> {
    open spec fn obeys_eq_spec() -> bool {
        true
    }

    open spec fn eq_spec(&self, other: &Self) -> bool {
        self.x == other.x && self.y == other.y
    }
}

impl<S: Scale> core::ops::Add for Point<S> {
    type Output = Point<S>;

    fn add(self, rhs: Self) -> (r: Self) {
        Point { x: self.x + rhs.x, y: self.y + rhs.y, scale: PhantomData }
    }
}

impl<S: Scale> vstd::std_specs::ops::AddSpecImpl for Point<S> {
    open spec fn obeys_add_spec() -> bool {
        true
    }

    open spec fn add_req(self, rhs: Self) -> bool {
        &&& -0x8000_0000 <= self.x + rhs.x <= 0x7fff_ffff
        &&& -0x8000_0000 <= self.y + rhs.y <= 0x7fff_ffff
    }

    open spec fn add_spec(self, rhs: Self) -> Self {
        Point { x: (self.x + rhs.x) as i32, y: (self.y + rhs.y) as i32, scale: PhantomData }
    }
}

impl<S: Scale> core::ops::Sub for Point<S> {
    type Output = Point<S>;

    fn sub(self, rhs: Self) -> (r: Self) {
        Point { x: self.x - rhs.x, y: self.y - rhs.y, scale: PhantomData }
    }
}

impl<S: Scale> vstd::std_specs::ops::SubSpecImpl for Point<S> {
    open spec fn obeys_sub_spec() -> bool {
        true
    }

    open spec fn sub_req(self, rhs: Self) -> bool {
        &&& -0x8000_0000 <= self.x - rhs.x <= 0x7fff_ffff
        &&& -0x8000_0000 <= self.y - rhs.y <= 0x7fff_ffff
    }

    open spec fn sub_spec(self, rhs: Self) -> Self {
        Point { x: (self.x - rhs.x) as i32, y: (self.y - rhs.y) as i32, scale: PhantomData }
    }
}

impl<S: Scale> core::ops::Mul<i32> for Point<S> {
    type Output = Point<S>;

    fn mul(self, rhs: i32) -> (r: Self) {
        Point { x: self.x * rhs, y: self.y * rhs, scale: PhantomData }
    }
}

impl<S: Scale> vstd::std_specs::ops::MulSpecImpl<i32> for Point<S> {
    open spec fn obeys_mul_spec() -> bool {
        true
    }

    open spec fn mul_req(self, rhs: i32) -> bool {
        &&& -0x8000_0000 <= self.x * rhs <= 0x7fff_ffff
        &&& -0x8000_0000 <= self.y * rhs <= 0x7fff_ffff
    }

    open spec fn mul_spec(self, rhs: i32) -> Self {
        Point { x: (self.x * rhs) as i32, y: (self.y * rhs) as i32, scale: PhantomData }
    }
}

impl<S: Scale> core::ops::Div<i32> for Point<S> {
    type Output = Point<S>;

    fn div(self, rhs: i32) -> (r: Self) {
        Point { x: self.x / rhs, y: self.y / rhs, scale: PhantomData }
    }
}

impl<S: Scale> vstd::std_specs::ops::DivSpecImpl<i32> for Point<S> {
    open spec fn obeys_div_spec() -> bool {
        true
    }

    open spec fn div_req(self, rhs: i32) -> bool {
        &&& rhs != 0
        &&& !(self.x == -0x8000_0000 && rhs == -1)
        &&& !(self.y == -0x8000_0000 && rhs == -1)
    }

    open spec fn div_spec(self, rhs: i32) -> Self {
        Point {
            x: tdiv(self.x as int, rhs as int) as i32,
            y: tdiv(self.y as int, rhs as int) as i32,
            scale: PhantomData,
        }
    }
}

impl<S: Scale> core::ops::Rem<i32> for Point<S> {
    type Output = Point<S>;

    fn rem(self, rhs: i32) -> (r: Self) {
        Point { x: self.x % rhs, y: self.y % rhs, scale: PhantomData }
    }
}

impl<S: Scale> vstd::std_specs::ops::RemSpecImpl<i32> for Point<S> {
    open spec fn obeys_rem_spec() -> bool {
        true
    }

    open spec fn rem_req(self, rhs: i32) -> bool {
        &&& rhs != 0
        &&& !(self.x == -0x8000_0000 && rhs == -1)
        &&& !(self.y == -0x8000_0000 && rhs == -1)
    }

    open spec fn rem_spec(self, rhs: i32) -> Self {
        Point {
            x: trem(self.x as int, rhs as int) as i32,
            y: trem(self.y as int, rhs as int) as i32,
            scale: PhantomData,
        }
    }
}

} // verus!
