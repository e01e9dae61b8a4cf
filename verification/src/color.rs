//! Colours with four channels, each saturated into the range from 0 to 1
//! at the moment a colour is made.

use vstd::prelude::*;
use crate::scalar::Scalar;
use crate::scalar::HALF_BITS;
use crate::scalar::ONE_BITS;
use crate::scalar::ZERO_BITS;
use crate::utils::clamp;
use crate::vector::Vector4;

verus! {

/// The pattern of `255.0`.
pub const BYTE_MAX_BITS: u32 = 0x437f_0000;

/// Whether a channel value is saturated: not below 0 and not above 1.
pub open spec fn in_unit(c: Scalar) -> bool {
    !c.less(Scalar { bits: ZERO_BITS }) && !Scalar { bits: ONE_BITS }.less(c)
}

/// A channel value brought into the range from 0 to 1.
pub open spec fn saturate(c: Scalar) -> Scalar {
    c.clamped(Scalar { bits: ZERO_BITS }, Scalar { bits: ONE_BITS })
}

/// A saturated value is saturated, whatever went in.
pub proof fn lemma_saturate(c: Scalar)
    ensures
        in_unit(saturate(c)),
{
}

/// A channel as a byte: 255 times the value, cut off to an integer of at
/// most 255.
pub open spec fn byte_of(c: Scalar) -> int {
    let n = c.times(Scalar { bits: BYTE_MAX_BITS }).truncated();
    if n > 255 {
        255
    } else {
        n
    }
}

/// A colour: red, green, blue and opacity.
#[derive(Clone, Copy, Debug, PartialEq, Eq, Structural)]
pub struct Color {
    r: Scalar,
    g: Scalar,
    b: Scalar,
    a: Scalar,
}

impl Color {
    /// Whether every channel is saturated. Every colour that exists is.
    #[verifier::type_invariant]
    pub closed spec fn saturated(self) -> bool {
        in_unit(self.r) && in_unit(self.g) && in_unit(self.b) && in_unit(self.a)
    }

    /// The four channels: red, green, blue, opacity.
    pub closed spec fn channels(self) -> Vector4 {
        Vector4 { x: self.r, y: self.g, z: self.b, w: self.a }
    }

    /// The colour with the given channels, each saturated.
    pub closed spec fn of(r: Scalar, g: Scalar, b: Scalar, a: Scalar) -> Color {
        Color { r: saturate(r), g: saturate(g), b: saturate(b), a: saturate(a) }
    }

    /// The opaque colour with the given channels, each saturated.
    pub open spec fn opaque(r: Scalar, g: Scalar, b: Scalar) -> Color {
        Color::of(r, g, b, Scalar { bits: ONE_BITS })
    }

    /// The opaque colour with the given bit patterns as channels.
    pub open spec fn opaque_bits(r: u32, g: u32, b: u32) -> Color {
        Color::opaque(Scalar { bits: r }, Scalar { bits: g }, Scalar { bits: b })
    }

    /// The channel-wise sum, saturated.
    pub open spec fn mixed(self, other: Color) -> Color {
        let (p, q) = (self.channels(), other.channels());
        Color::of(p.x.plus(q.x), p.y.plus(q.y), p.z.plus(q.z), p.w.plus(q.w))
    }

    /// The channel-wise product, saturated.
    pub open spec fn filtered(self, other: Color) -> Color {
        let (p, q) = (self.channels(), other.channels());
        Color::of(p.x.times(q.x), p.y.times(q.y), p.z.times(q.z), p.w.times(q.w))
    }

    /// Every channel times `factor`, saturated.
    pub open spec fn scaled(self, factor: Scalar) -> Color {
        let p = self.channels();
        Color::of(p.x.times(factor), p.y.times(factor), p.z.times(factor), p.w.times(factor))
    }

    /// Every channel divided by `divisor`, saturated.
    pub open spec fn divided(self, divisor: Scalar) -> Color {
        let p = self.channels();
        Color::of(p.x.over(divisor), p.y.over(divisor), p.z.over(divisor), p.w.over(divisor))
    }

    /// The channels of a made colour are the saturated inputs, and two
    /// colours with the same channels are the same colour.
    pub proof fn lemma_channels(r: Scalar, g: Scalar, b: Scalar, a: Scalar)
        ensures
            Color::of(r, g, b, a).channels() == (Vector4 {
                x: saturate(r),
                y: saturate(g),
                z: saturate(b),
                w: saturate(a),
            }),
            Color::of(r, g, b, a).saturated(),
    {
    }

    /// Every colour that is made, mixed, filtered, scaled or divided is
    /// saturated.
    pub proof fn lemma_always_saturated(c: Color, d: Color, k: Scalar)
        ensures
            c.mixed(d).saturated(),
            c.filtered(d).saturated(),
            c.scaled(k).saturated(),
            c.divided(k).saturated(),
    {
    }

    /// What it means for a colour to be saturated.
    pub proof fn lemma_saturated(c: Color)
        ensures
            c.saturated() <==> in_unit(c.channels().x) && in_unit(c.channels().y) && in_unit(
                c.channels().z,
            ) && in_unit(c.channels().w),
    {
    }

    /// The opaque colour with the given channels, each saturated.
    pub fn rgb(r: Scalar, g: Scalar, b: Scalar) -> (c: Color)
        ensures
            c == Color::opaque(r, g, b),
    {
        Color::rgba(r, g, b, Scalar::one())
    }

    /// The colour with the given channels, each saturated.
    pub fn rgba(r: Scalar, g: Scalar, b: Scalar, a: Scalar) -> (c: Color)
        ensures
            c == Color::of(r, g, b, a),
    {
        let zero = Scalar::zero();
        let one = Scalar::one();
        let r = clamp(r, zero, one);
        let g = clamp(g, zero, one);
        let b = clamp(b, zero, one);
        let a = clamp(a, zero, one);
        Color { r, g, b, a }
    }

    /// The red, green and blue channels as bytes.
    pub fn get_rgb(&self) -> (p: (u8, u8, u8))
        ensures
            p.0 == byte_of(self.channels().x),
            p.1 == byte_of(self.channels().y),
            p.2 == byte_of(self.channels().z),
    {
        (channel_byte(self.r), channel_byte(self.g), channel_byte(self.b))
    }

    pub fn to_vec(&self) -> (v: Vector4)
        ensures
            v == self.channels(),
    {
        Vector4::new(self.r, self.g, self.b, self.a)
    }

    pub fn white() -> (c: Color)
        ensures
            c == Color::opaque_bits(ONE_BITS, ONE_BITS, ONE_BITS),
    {
        Color::rgb(Scalar::one(), Scalar::one(), Scalar::one())
    }

    pub fn black() -> (c: Color)
        ensures
            c == Color::opaque_bits(ZERO_BITS, ZERO_BITS, ZERO_BITS),
    {
        Color::rgb(Scalar::zero(), Scalar::zero(), Scalar::zero())
    }

    pub fn red() -> (c: Color)
        ensures
            c == Color::opaque_bits(ONE_BITS, ZERO_BITS, ZERO_BITS),
    {
        Color::rgb(Scalar::one(), Scalar::zero(), Scalar::zero())
    }

    pub fn green() -> (c: Color)
        ensures
            c == Color::opaque_bits(ZERO_BITS, ONE_BITS, ZERO_BITS),
    {
        Color::rgb(Scalar::zero(), Scalar::one(), Scalar::zero())
    }

    pub fn blue() -> (c: Color)
        ensures
            c == Color::opaque_bits(ZERO_BITS, ZERO_BITS, ONE_BITS),
    {
        Color::rgb(Scalar::zero(), Scalar::zero(), Scalar::one())
    }

    pub fn yellow() -> (c: Color)
        ensures
            c == Color::opaque_bits(ONE_BITS, ONE_BITS, ZERO_BITS),
    {
        Color::rgb(Scalar::one(), Scalar::one(), Scalar::zero())
    }

    /// The opaque colour with `value` on the three colour channels.
    pub fn grayscale(value: Scalar) -> (c: Color)
        ensures
            c == Color::opaque(value, value, value),
    {
        Color::rgb(value, value, value)
    }

    /// The grey of half intensity that stands for a surface without
    /// material or texture.
    pub fn mid_gray() -> (c: Color)
        ensures
            c == Color::opaque_bits(HALF_BITS, HALF_BITS, HALF_BITS),
    {
        let half = Scalar::from_bits(HALF_BITS);
        Color::rgb(half, half, half)
    }

    /// The fully transparent black from which sums of colours start.
    pub fn clear() -> (c: Color)
        ensures
            c == Color::of(
                Scalar { bits: ZERO_BITS },
                Scalar { bits: ZERO_BITS },
                Scalar { bits: ZERO_BITS },
                Scalar { bits: ZERO_BITS },
            ),
    {
        let zero = Scalar::zero();
        Color::rgba(zero, zero, zero, zero)
    }

    /// The channel-wise sum, saturated.
    pub fn add(self, rhs: Color) -> (c: Color)
        ensures
            c == self.mixed(rhs),
    {
        Color::rgba(
            self.r.add(rhs.r),
            self.g.add(rhs.g),
            self.b.add(rhs.b),
            self.a.add(rhs.a),
        )
    }

    /// The channel-wise product, saturated.
    pub fn mul(self, rhs: Color) -> (c: Color)
        ensures
            c == self.filtered(rhs),
    {
        Color::rgba(
            self.r.mul(rhs.r),
            self.g.mul(rhs.g),
            self.b.mul(rhs.b),
            self.a.mul(rhs.a),
        )
    }

    /// The colour with every channel multiplied by `rhs`.
    pub fn scale(self, rhs: Scalar) -> (c: Color)
        ensures
            c == self.scaled(rhs),
    {
        Color::rgba(self.r.mul(rhs), self.g.mul(rhs), self.b.mul(rhs), self.a.mul(rhs))
    }

    /// The colour with every channel divided by `rhs`.
    pub fn div(self, rhs: Scalar) -> (c: Color)
        ensures
            c == self.divided(rhs),
    {
        Color::rgba(self.r.div(rhs), self.g.div(rhs), self.b.div(rhs), self.a.div(rhs))
    }
}

/// A channel as a byte.
fn channel_byte(c: Scalar) -> (n: u8)
    ensures
        n == byte_of(c),
{
    let n: u32 = c.mul(Scalar::from_bits(BYTE_MAX_BITS)).to_u32();
    if n > 255 {
        255
    } else {
        n as u8
    }
}

} // verus!
