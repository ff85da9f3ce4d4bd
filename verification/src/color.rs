//! A three-channel linear RGB color.
//!
//! Each channel holds the IEEE 754 bit pattern of the `f64` value it denotes,
//! so two colors are equal exactly when their channel bit patterns are equal.
//! Channels are unconstrained: a channel may denote a value outside `[0, 1]`
//! (or a negative one) during intermediate computation; saturation happens
//! only when a canvas is serialized.

use vstd::prelude::*;

verus! {

/// The bit pattern of the `f64` value `0.0`.
pub const CHANNEL_ZERO: u64 = 0;

/// The bit pattern of the `f64` value `1.0`.
pub const CHANNEL_ONE: u64 = 0x3FF0_0000_0000_0000;

/// An RGB color; each field is the IEEE 754 bit pattern of that channel's
/// `f64` value.
#[derive(Clone, Copy, Debug, PartialEq, Eq, Structural)]
pub struct Color {
    pub r: u64,
    pub g: u64,
    pub b: u64,
}

impl Color {
    pub fn new(r: u64, g: u64, b: u64) -> (c: Color)
        ensures
            c == (Color { r, g, b }),
    {
        Color { r, g, b }
    }

    /// Red channel, as the bit pattern of its `f64` value.
    pub fn r(&self) -> (bits: u64)
        ensures
            bits == self.r,
    {
        self.r
    }

    /// Green channel, as the bit pattern of its `f64` value.
    pub fn g(&self) -> (bits: u64)
        ensures
            bits == self.g,
    {
        self.g
    }

    /// Blue channel, as the bit pattern of its `f64` value.
    pub fn b(&self) -> (bits: u64)
        ensures
            bits == self.b,
    {
        self.b
    }

    pub fn black() -> (c: Color)
        ensures
            c == (Color { r: CHANNEL_ZERO, g: CHANNEL_ZERO, b: CHANNEL_ZERO }),
    {
        Color { r: CHANNEL_ZERO, g: CHANNEL_ZERO, b: CHANNEL_ZERO }
    }

    pub fn white() -> (c: Color)
        ensures
            c == (Color { r: CHANNEL_ONE, g: CHANNEL_ONE, b: CHANNEL_ONE }),
    {
        Color { r: CHANNEL_ONE, g: CHANNEL_ONE, b: CHANNEL_ONE }
    }

    pub fn red() -> (c: Color)
        ensures
            c == (Color { r: CHANNEL_ONE, g: CHANNEL_ZERO, b: CHANNEL_ZERO }),
    {
        Color { r: CHANNEL_ONE, g: CHANNEL_ZERO, b: CHANNEL_ZERO }
    }

    pub fn green() -> (c: Color)
        ensures
            c == (Color { r: CHANNEL_ZERO, g: CHANNEL_ONE, b: CHANNEL_ZERO }),
    {
        Color { r: CHANNEL_ZERO, g: CHANNEL_ONE, b: CHANNEL_ZERO }
    }

    pub fn blue() -> (c: Color)
        ensures
            c == (Color { r: CHANNEL_ZERO, g: CHANNEL_ZERO, b: CHANNEL_ONE }),
    {
        Color { r: CHANNEL_ZERO, g: CHANNEL_ZERO, b: CHANNEL_ONE }
    }
}

} // verus!
