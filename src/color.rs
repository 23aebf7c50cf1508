//! Fixed-point color vectors.
//!
//! A channel intensity in `[0, 1]` is held as an integer in `[0, FULL]`, so that
//! averaging, distance comparison and conversion back to 8-bit channels are
//! exact integer operations.
use vstd::prelude::*;

verus! {

/// The fixed-point value of a fully lit channel (intensity 1).
pub const FULL: u16 = 65280;

/// The fixed-point width of one 8-bit channel level: `255 * LEVEL == FULL`.
pub const LEVEL: u16 = 256;

/// A color vector with three fixed-point channels.
#[derive(Clone, Copy, Debug, PartialEq, Eq, Structural)]
pub struct Color {
    pub r: u16,
    pub g: u16,
    pub b: u16,
}

/// An 8-bit RGB color.
#[derive(Clone, Copy, Debug, PartialEq, Eq, Structural)]
pub struct Rgb8 {
    pub r: u8,
    pub g: u8,
    pub b: u8,
}

impl Color {
    /// Every channel lies in `[0, FULL]`.
    pub open spec fn wf(self) -> bool {
        self.r <= FULL && self.g <= FULL && self.b <= FULL
    }

    /// The channel with the given index (0 red, 1 green, 2 blue).
    pub open spec fn channel(self, ch: int) -> int {
        if ch == 0 {
            self.r as int
        } else if ch == 1 {
            self.g as int
        } else {
            self.b as int
        }
    }

    /// Builds a color from three channel values.
    pub fn new(r: u16, g: u16, b: u16) -> (c: Color)
        ensures
            c == (Color { r, g, b }),
    {
        Color { r, g, b }
    }

    /// The fixed-point color of an 8-bit pixel: each level `v` becomes `v / 255`.
    pub fn from_rgb8(p: Rgb8) -> (c: Color)
        ensures
            c == color_of_rgb8(p),
            c.wf(),
    {
        Color { r: p.r as u16 * LEVEL, g: p.g as u16 * LEVEL, b: p.b as u16 * LEVEL }
    }

    /// The 8-bit pixel of a color: each channel is scaled to `[0, 255]` and
    /// truncated toward zero.
    pub fn to_rgb8(&self) -> (p: Rgb8)
        requires
            self.wf(),
        ensures
            p == rgb8_of_color(*self),
    {
        Rgb8 {
            r: (self.r / LEVEL) as u8,
            g: (self.g / LEVEL) as u8,
            b: (self.b / LEVEL) as u8,
        }
    }

    /// The squared Euclidean distance to another color.
    pub fn distance_sq(&self, o: &Color) -> (d: u64)
        ensures
            d == sq_dist(*self, *o),
    {
        let dr: u64 = abs_diff(self.r, o.r);
        let dg: u64 = abs_diff(self.g, o.g);
        let db: u64 = abs_diff(self.b, o.b);
        assert(dr * dr <= 0xffff * 0xffff && dr * dr == sq_diff(self.r as int, o.r as int))
            by (nonlinear_arith)
            requires
                dr <= 0xffff,
                dr == if self.r >= o.r { self.r - o.r } else { o.r - self.r },
        ;
        assert(dg * dg <= 0xffff * 0xffff && dg * dg == sq_diff(self.g as int, o.g as int))
            by (nonlinear_arith)
            requires
                dg <= 0xffff,
                dg == if self.g >= o.g { self.g - o.g } else { o.g - self.g },
        ;
        assert(db * db <= 0xffff * 0xffff && db * db == sq_diff(self.b as int, o.b as int))
            by (nonlinear_arith)
            requires
                db <= 0xffff,
                db == if self.b >= o.b { self.b - o.b } else { o.b - self.b },
        ;
        dr * dr + dg * dg + db * db
    }
}

fn abs_diff(a: u16, b: u16) -> (d: u64)
    ensures
        d == if a >= b { a - b } else { b - a },
{
    if a >= b {
        (a - b) as u64
    } else {
        (b - a) as u64
    }
}

/// The fixed-point color of an 8-bit pixel.
pub open spec fn color_of_rgb8(p: Rgb8) -> Color {
    Color { r: (p.r * 256) as u16, g: (p.g * 256) as u16, b: (p.b * 256) as u16 }
}

/// The 8-bit pixel of a fixed-point color, truncating each channel.
pub open spec fn rgb8_of_color(c: Color) -> Rgb8 {
    Rgb8 { r: (c.r / 256) as u8, g: (c.g / 256) as u8, b: (c.b / 256) as u8 }
}

/// The square of the difference of two channel values.
pub open spec fn sq_diff(a: int, b: int) -> int {
    (a - b) * (a - b)
}

/// The squared Euclidean distance between two colors. Distances compare as
/// their squares do, so nearest-centroid decisions are made on this value.
pub open spec fn sq_dist(a: Color, b: Color) -> int {
    sq_diff(a.r as int, b.r as int) + sq_diff(a.g as int, b.g as int) + sq_diff(
        a.b as int,
        b.b as int,
    )
}

/// The color samples of a sequence of 8-bit pixels, one per pixel, in order.
pub fn samples_from_pixels(pixels: &Vec<Rgb8>) -> (samples: Vec<Color>)
    ensures
        samples@ == pixels@.map_values(|p: Rgb8| color_of_rgb8(p)),
        forall|i: int| 0 <= i < samples.len() ==> #[trigger] samples@[i].wf(),
{
    let mut samples: Vec<Color> = Vec::new();
    let mut i: usize = 0;
    while i < pixels.len()
        invariant
            0 <= i <= pixels.len(),
            samples@ == pixels@.take(i as int).map_values(|p: Rgb8| color_of_rgb8(p)),
            forall|m: int| 0 <= m < samples.len() ==> #[trigger] samples@[m].wf(),
        decreases pixels.len() - i,
    {
        let c = Color::from_rgb8(pixels[i]);
        samples.push(c);
        proof {
            assert(pixels@.take(i + 1).map_values(|p: Rgb8| color_of_rgb8(p)) =~= pixels@.take(
                i as int,
            ).map_values(|p: Rgb8| color_of_rgb8(p)).push(c));
        }
        i = i + 1;
    }
    assert(pixels@.take(pixels.len() as int) =~= pixels@);
    samples
}

} // verus!
