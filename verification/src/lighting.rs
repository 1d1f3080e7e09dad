//! Colours, lights and pixels.

use vstd::prelude::*;
use vstd::std_specs::ops::MulSpecImpl;
use std::ops::{Mul, MulAssign};
use crate::fixed::{clamp_to_unit, clamp_unit, div_round, fx_mul, mul_wide, ONE};
use crate::vector::Point3;

verus! {

/// The product of two channel values, kept within zero and one.
pub open spec fn unit_mul(a: int, b: int) -> int {
    clamp_unit(fx_mul(a, b))
}

/// The byte that stands for a channel value: 255 times the value, rounded up.
pub open spec fn channel_byte(c: int) -> int {
    (clamp_unit(c) * 255 + ONE - 1) / (ONE as int)
}

fn mul_unit(a: i64, b: i64) -> (r: i64)
    ensures
        r == unit_mul(a as int, b as int),
        0 <= r <= ONE,
{
    clamp_to_unit(div_round(mul_wide(a, b), ONE as i128))
}

fn to_byte(c: i64) -> (r: u8)
    ensures
        r == channel_byte(c as int),
{
    let v: i64 = clamp_to_unit(c as i128);
    ((v * 255 + (ONE - 1)) / ONE) as u8
}

/// A point light.
#[derive(Clone, Copy, Debug, PartialEq, Eq, Structural)]
pub struct Light {
    pub pos: Point3,
    /// Fraction of full brightness, from zero to one.
    pub luminance: i64,
}

impl Light {
    /// A light at `pos` that gives the fraction `luminance` of full brightness.
    pub fn new(pos: Point3, luminance: i64) -> (l: Light)
        ensures
            l.pos == pos,
            l.luminance == luminance,
    {
        Light { pos, luminance }
    }

    /// The light lies in the world and its luminance is a fraction.
    pub open spec fn wf(&self) -> bool {
        self.pos.in_world() && 0 <= self.luminance <= ONE
    }

    /// Whether the light lies in the world and its luminance is a fraction.
    pub fn is_wf(&self) -> (b: bool)
        ensures
            b == self.wf(),
    {
        self.pos.is_in_world() && 0 <= self.luminance && self.luminance <= ONE
    }
}

/// An 8-bit pixel with alpha.
#[derive(Clone, Copy, Debug, PartialEq, Eq, Structural)]
pub struct Rgba {
    pub r: u8,
    pub g: u8,
    pub b: u8,
    pub a: u8,
}

/// A colour of three channels, each a fraction between zero and one.
#[derive(Clone, Copy, Debug, PartialEq, Eq, Structural)]
pub struct Color {
    pub r: i64,
    pub g: i64,
    pub b: i64,
}

impl Color {
    /// Every channel lies between zero and one.
    pub open spec fn wf(&self) -> bool {
        0 <= self.r <= ONE && 0 <= self.g <= ONE && 0 <= self.b <= ONE
    }

    /// Whether every channel lies between zero and one.
    pub fn is_wf(&self) -> (b: bool)
        ensures
            b == self.wf(),
    {
        0 <= self.r && self.r <= ONE && 0 <= self.g && self.g <= ONE && 0 <= self.b && self.b
            <= ONE
    }

    /// The channel-wise product with `o`.
    pub open spec fn blend(self, o: Color) -> Color {
        Color {
            r: unit_mul(self.r as int, o.r as int) as i64,
            g: unit_mul(self.g as int, o.g as int) as i64,
            b: unit_mul(self.b as int, o.b as int) as i64,
        }
    }

    /// Every channel multiplied by the scalar `k`.
    pub open spec fn dimmed(self, k: int) -> Color {
        Color {
            r: unit_mul(self.r as int, k) as i64,
            g: unit_mul(self.g as int, k) as i64,
            b: unit_mul(self.b as int, k) as i64,
        }
    }

    /// The pixel that shows this colour, fully opaque.
    pub open spec fn pixel(self) -> Rgba {
        Rgba {
            r: channel_byte(self.r as int) as u8,
            g: channel_byte(self.g as int) as u8,
            b: channel_byte(self.b as int) as u8,
            a: 255,
        }
    }

    /// A colour from three channel values, each brought into the range from zero to one.
    pub fn new(r: i64, g: i64, b: i64) -> (c: Color)
        ensures
            c.r == clamp_unit(r as int),
            c.g == clamp_unit(g as int),
            c.b == clamp_unit(b as int),
            c.wf(),
    {
        Color { r: clamp_to_unit(r as i128), g: clamp_to_unit(g as i128), b: clamp_to_unit(b as i128) }
    }

    /// No light in any channel.
    pub fn black() -> (c: Color)
        ensures
            c == (Color { r: 0, g: 0, b: 0 }),
    {
        Color::new(0, 0, 0)
    }

    /// Full light in every channel.
    pub fn white() -> (c: Color)
        ensures
            c == (Color { r: ONE, g: ONE, b: ONE }),
    {
        Color::new(ONE, ONE, ONE)
    }

    /// The grey whose three channels all hold `a`, brought into range.
    pub fn grey_from_float(a: i64) -> (c: Color)
        ensures
            c.r == clamp_unit(a as int),
            c.g == c.r,
            c.b == c.r,
    {
        Color::new(a, a, a)
    }

    /// The 8-bit pixel for this colour: each channel times 255, rounded up, alpha 255.
    pub fn get_image_rgba(&self) -> (p: Rgba)
        ensures
            p == self.pixel(),
    {
        Rgba { r: to_byte(self.r), g: to_byte(self.g), b: to_byte(self.b), a: 255 }
    }

    /// The colour a ray keeps after travelling `distance_travelled`: distance does not fade it.
    pub fn fade_due_to_render_distance(ray_col: &Color, distance_travelled: i64) -> (c: Color)
        ensures
            c == *ray_col,
    {
        *ray_col
    }

    /// Whether every channel is zero.
    pub fn is_black(&self) -> (b: bool)
        ensures
            b == (self.r == 0 && self.g == 0 && self.b == 0),
    {
        (self.r == 0) && (self.g == 0) && (self.b == 0)
    }
}

/// Blending: the channel-wise product of two colours, kept within range.
impl Mul<Color> for Color {
    type Output = Color;

    fn mul(self, rhs: Color) -> (c: Color)
        ensures
            c == self.blend(rhs),
            c.wf(),
    {
        Color {
            r: mul_unit(self.r, rhs.r),
            g: mul_unit(self.g, rhs.g),
            b: mul_unit(self.b, rhs.b),
        }
    }
}

impl MulSpecImpl<Color> for Color {
    open spec fn obeys_mul_spec() -> bool {
        true
    }

    open spec fn mul_req(self, rhs: Color) -> bool {
        true
    }

    open spec fn mul_spec(self, rhs: Color) -> Color {
        self.blend(rhs)
    }
}

/// Dimming: every channel multiplied by a scalar, kept within range.
impl Mul<i64> for Color {
    type Output = Color;

    fn mul(self, rhs: i64) -> (c: Color)
        ensures
            c == self.dimmed(rhs as int),
            c.wf(),
    {
        Color {
            r: mul_unit(self.r, rhs),
            g: mul_unit(self.g, rhs),
            b: mul_unit(self.b, rhs),
        }
    }
}

impl MulSpecImpl<i64> for Color {
    open spec fn obeys_mul_spec() -> bool {
        true
    }

    open spec fn mul_req(self, rhs: i64) -> bool {
        true
    }

    open spec fn mul_spec(self, rhs: i64) -> Color {
        self.dimmed(rhs as int)
    }
}

impl MulAssign<Color> for Color {
    fn mul_assign(&mut self, rhs: Color)
        ensures
            *final(self) == old(self).blend(rhs),
    {
        *self = (*self) * rhs;
    }
}

impl MulAssign<i64> for Color {
    fn mul_assign(&mut self, rhs: i64)
        ensures
            *final(self) == old(self).dimmed(rhs as int),
    {
        *self = (*self) * rhs;
    }
}

} // verus!
