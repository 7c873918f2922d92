//! Colours, and how a colour becomes the three bytes of a pixel.
use vstd::prelude::*;
use crate::fixed::SCALE;
use crate::text::{decimal, push_decimal};
use crate::vector::{Vec3, V3};

verus! {

/// A colour: red, green and blue in the three components, `SCALE` being full
/// intensity.
pub type Color = Vec3;

/// The largest intensity that is written out: `0.999`.
pub const CHANNEL_MAX: i64 = 999_000;

/// The colours that have a name.
pub enum Presets {
    White,
    Black,
    Red,
    Green,
    Blue,
}

/// The intensity `c` brought into `[0, CHANNEL_MAX]`.
pub open spec fn clamped(c: int) -> int {
    if c < 0 {
        0
    } else if c > CHANNEL_MAX {
        CHANNEL_MAX as int
    } else {
        c
    }
}

/// The intensity `c`, clamped and then stretched over the 256 levels of a
/// byte, as a fixed-point number.
pub open spec fn level(c: int) -> int {
    256 * clamped(c)
}

/// The byte written for the intensity `c`: its level without the fraction.
pub open spec fn channel(c: int) -> int {
    level(c) / (SCALE as int)
}

/// The line of text written for the colour `c`: its three bytes in decimal,
/// separated by spaces, and a line feed.
pub open spec fn color_line(c: V3) -> Seq<u8> {
    decimal(channel(c.x) as nat) + seq![32u8] + decimal(channel(c.y) as nat) + seq![32u8]
        + decimal(channel(c.z) as nat) + seq![10u8]
}

/// Every byte of a pixel lies between 0 and 255, whatever the intensity.
pub proof fn lemma_channel_is_byte(c: int)
    ensures
        0 <= channel(c) <= 255,
{
}

impl Color {
    /// Appends the line of text of this colour to `out`.
    pub fn write_color(&self, out: &mut Vec<u8>)
        ensures
            final(out)@ == old(out)@ + color_line(self@),
    {
        let (red, green, blue) = self.pixel();
        push_decimal(out, red as u64);
        out.push(32u8);
        push_decimal(out, green as u64);
        out.push(32u8);
        push_decimal(out, blue as u64);
        out.push(10u8);
        assert(out@ == old(out)@ + color_line(self@));
    }

    /// The three bytes of the pixel of this colour.
    pub fn pixel(&self) -> (p: (u8, u8, u8))
        ensures
            p.0 == channel(self.x as int),
            p.1 == channel(self.y as int),
            p.2 == channel(self.z as int),
    {
        ((self.r() / SCALE) as u8, (self.g() / SCALE) as u8, (self.b() / SCALE) as u8)
    }

    /// The level of red.
    pub fn r(&self) -> (v: i64)
        ensures
            v == level(self.x as int),
            0 <= v < 256 * SCALE,
    {
        256 * clamp(self.x)
    }

    /// The level of green.
    pub fn g(&self) -> (v: i64)
        ensures
            v == level(self.y as int),
            0 <= v < 256 * SCALE,
    {
        256 * clamp(self.y)
    }

    /// The level of blue.
    pub fn b(&self) -> (v: i64)
        ensures
            v == level(self.z as int),
            0 <= v < 256 * SCALE,
    {
        256 * clamp(self.z)
    }

    /// The colour of the given name.
    pub fn colors(preset: Presets) -> (c: Color)
        ensures
            c@ == match preset {
                Presets::White => V3::of(SCALE as int, SCALE as int, SCALE as int),
                Presets::Black => V3::of(0, 0, 0),
                Presets::Red => V3::of(SCALE as int, 0, 0),
                Presets::Green => V3::of(0, SCALE as int, 0),
                Presets::Blue => V3::of(0, 0, SCALE as int),
            },
    {
        match preset {
            Presets::White => Color::new(SCALE, SCALE, SCALE),
            Presets::Black => Color::new(0, 0, 0),
            Presets::Red => Color::new(SCALE, 0, 0),
            Presets::Green => Color::new(0, SCALE, 0),
            Presets::Blue => Color::new(0, 0, SCALE),
        }
    }

    /// The colour with the components of `color`.
    pub fn from_vec3(color: Vec3) -> (c: Color)
        ensures
            c@ == color@,
    {
        Color::new(color.x, color.y, color.z)
    }
}

/// The intensity `c` brought into `[0, CHANNEL_MAX]`.
fn clamp(c: i64) -> (r: i64)
    ensures
        r == clamped(c as int),
{
    if c < 0 {
        0
    } else if c > CHANNEL_MAX {
        CHANNEL_MAX
    } else {
        c
    }
}

} // verus!
