use vstd::prelude::*;

verus! {

/// Hue units in a full turn: a hue is counted in hundredths of a degree.
pub const HUE_TURN: u32 = 36000;

/// Saturation and value are counted in ten-thousandths of the full scale.
pub const UNIT_SCALE: u32 = 10000;

/// A color as three 8-bit channels.
#[derive(Clone, Copy, Debug, PartialEq, Eq, Structural)]
pub struct Rgb {
    pub r: u8,
    pub g: u8,
    pub b: u8,
}

impl Rgb {
    pub fn new(r: u8, g: u8, b: u8) -> (c: Rgb)
        ensures
            c == (Rgb { r, g, b }),
    {
        Rgb { r, g, b }
    }

    /// The color with the given channels, or `None` when one exceeds 255.
    pub fn checked(r: u32, g: u32, b: u32) -> (c: Option<Rgb>)
        ensures
            c is Some <==> (r <= 255 && g <= 255 && b <= 255),
            c is Some ==> c->0.r == r && c->0.g == g && c->0.b == b,
    {
        if r <= 255 && g <= 255 && b <= 255 {
            Some(Rgb { r: r as u8, g: g as u8, b: b as u8 })
        } else {
            None
        }
    }

    /// The channels packed as `0xRRGGBB`.
    pub fn to_hex(&self) -> (x: u32)
        ensures
            x == self.r as int * 65536 + self.g as int * 256 + self.b as int,
    {
        self.r as u32 * 65536 + self.g as u32 * 256 + self.b as u32
    }

    pub fn to_inner(self) -> (t: (u8, u8, u8))
        ensures
            t == (self.r, self.g, self.b),
    {
        (self.r, self.g, self.b)
    }
}

/// A color as hue (hundredths of a degree, below a full turn), saturation and
/// value (ten-thousandths, at most the full scale).
#[derive(Clone, Copy, Debug, PartialEq, Eq, Structural)]
pub struct Hsv {
    pub h: u32,
    pub s: u32,
    pub v: u32,
}

/// Whether `(h, s, v)` lies in the half-open hue range and the closed
/// saturation and value ranges.
pub open spec fn hsv_in_range(h: int, s: int, v: int) -> bool {
    0 <= h < HUE_TURN && 0 <= s <= UNIT_SCALE && 0 <= v <= UNIT_SCALE
}

/// Units of one 60-degree sector of hue.
pub open spec fn sector() -> int {
    6000
}

/// The common denominator of the exact channel fractions below.
pub open spec fn denom() -> int {
    UNIT_SCALE as int * UNIT_SCALE as int * sector()
}

/// Chroma `v * s`, over `denom()`.
pub open spec fn chroma(s: int, v: int) -> int {
    v * s * sector()
}

/// The second-largest component `c * (1 - |(h / 60) mod 2 - 1|)`, over `denom()`.
pub open spec fn second(h: int, s: int, v: int) -> int {
    let t = h % (2 * sector());
    let dist = if t >= sector() { t - sector() } else { sector() - t };
    v * s * (sector() - dist)
}

/// The offset `m = v - c`, over `denom()`.
pub open spec fn offset(s: int, v: int) -> int {
    v * UNIT_SCALE * sector() - chroma(s, v)
}

/// A channel fraction `n / denom()` in `[0, 1]` scaled to 255 and rounded to
/// the nearest integer, halves upward.
pub open spec fn scale_channel(n: int) -> int {
    (n * 510 + denom()) / (2 * denom())
}

/// The unscaled (red, green, blue) components chosen by the hue's sector.
pub open spec fn sector_components(h: int, s: int, v: int) -> (int, int, int) {
    let c = chroma(s, v);
    let x = second(h, s, v);
    let k = h / sector();
    if k == 0 {
        (c, x, 0)
    } else if k == 1 {
        (x, c, 0)
    } else if k == 2 {
        (0, c, x)
    } else if k == 3 {
        (0, x, c)
    } else if k == 4 {
        (x, 0, c)
    } else {
        (c, 0, x)
    }
}

/// The RGB channels of `(h, s, v)`: the sector's components plus the offset,
/// scaled to 0..=255.
pub open spec fn hsv_to_rgb(h: int, s: int, v: int) -> (int, int, int) {
    let (r, g, b) = sector_components(h, s, v);
    let m = offset(s, v);
    (scale_channel(r + m), scale_channel(g + m), scale_channel(b + m))
}

/// For every color in range, each converted channel lies in `[0, 255]`.
pub proof fn lemma_hsv_to_rgb_in_range(h: int, s: int, v: int)
    requires
        hsv_in_range(h, s, v),
    ensures
        0 <= hsv_to_rgb(h, s, v).0 <= 255,
        0 <= hsv_to_rgb(h, s, v).1 <= 255,
        0 <= hsv_to_rgb(h, s, v).2 <= 255,
{
    let c = chroma(s, v);
    let x = second(h, s, v);
    let m = offset(s, v);
    let t = h % (2 * sector());
    let dist = if t >= sector() { t - sector() } else { sector() - t };
    assert(0 <= dist <= sector());
    assert(0 <= v * s) by (nonlinear_arith)
        requires 0 <= s, 0 <= v;
    assert(v * s * (sector() - dist) <= v * s * sector()) by (nonlinear_arith)
        requires 0 <= v * s, 0 <= dist <= sector();
    assert(0 <= v * s * (sector() - dist)) by (nonlinear_arith)
        requires 0 <= v * s, 0 <= dist <= sector();
    assert(v * s <= v * UNIT_SCALE) by (nonlinear_arith)
        requires 0 <= v, s <= UNIT_SCALE;
    assert(v * UNIT_SCALE <= UNIT_SCALE * UNIT_SCALE) by (nonlinear_arith)
        requires v <= UNIT_SCALE;
    assert(0 <= x <= c);
    assert(0 <= m);
    assert(c + m <= denom());
    assert forall|n: int| 0 <= n <= denom() implies 0 <= #[trigger] scale_channel(n) <= 255 by {
        assert(n * 510 + denom() <= 511 * denom());
        assert((n * 510 + denom()) / (2 * denom()) <= 255) by (nonlinear_arith)
            requires n * 510 + denom() <= 511 * denom(), denom() > 0;
        assert(0 <= (n * 510 + denom()) / (2 * denom())) by (nonlinear_arith)
            requires n >= 0, denom() > 0;
    }
    let (r, g, b) = sector_components(h, s, v);
    assert(0 <= r <= c && 0 <= g <= c && 0 <= b <= c);
    assert(0 <= r + m <= denom() && 0 <= g + m <= denom() && 0 <= b + m <= denom());
}


/// The channel `n / denom()` scaled to 255 and rounded, halves upward.
fn scale(n: u64) -> (r: u8)
    requires
        n <= denom(),
    ensures
        r == scale_channel(n as int),
{
    let d: u64 = 600_000_000_000;
    assert(denom() == 600_000_000_000);
    let q = (n * 510 + d) / (2 * d);
    assert(q <= 255) by (nonlinear_arith)
        requires n <= d, d == 600_000_000_000, q == (n * 510 + d) / (2 * d);
    q as u8
}

impl Hsv {
    pub open spec fn wf(&self) -> bool {
        hsv_in_range(self.h as int, self.s as int, self.v as int)
    }

    pub fn new(h: u32, s: u32, v: u32) -> (c: Hsv)
        requires
            hsv_in_range(h as int, s as int, v as int),
        ensures
            c == (Hsv { h, s, v }),
            c.wf(),
    {
        Hsv { h, s, v }
    }

    /// The color with the given components, or `None` when the hue is not
    /// below a full turn or saturation or value exceeds the full scale.
    pub fn checked(h: u32, s: u32, v: u32) -> (c: Option<Hsv>)
        ensures
            c is Some <==> hsv_in_range(h as int, s as int, v as int),
            c is Some ==> c->0 == (Hsv { h, s, v }),
    {
        if h < HUE_TURN && s <= UNIT_SCALE && v <= UNIT_SCALE {
            Some(Hsv { h, s, v })
        } else {
            None
        }
    }

    /// The RGB form of this color, by the hue-sector decomposition.
    pub fn to_rgb(self) -> (c: Rgb)
        requires
            self.wf(),
        ensures
            (c.r as int, c.g as int, c.b as int) == hsv_to_rgb(self.h as int, self.s as int, self.v as int),
    {
        proof {
            lemma_hsv_to_rgb_in_range(self.h as int, self.s as int, self.v as int);
        }
        let h = self.h as u64;
        let s = self.s as u64;
        let v = self.v as u64;
        assert(v * s <= 100_000_000) by (nonlinear_arith)
            requires v <= 10000, s <= 10000;
        assert(v * s <= v * 10000) by (nonlinear_arith)
            requires s <= 10000;
        let vs = v * s;
        let c = vs * 6000;
        let t = h % 12000;
        let dist = if t >= 6000 { t - 6000 } else { 6000 - t };
        assert(vs * (6000 - dist) <= vs * 6000) by (nonlinear_arith)
            requires dist <= 6000;
        let x = vs * (6000 - dist);
        assert(x == second(self.h as int, self.s as int, self.v as int));
        let m = v * 10000 * 6000 - c;
        let k = h / 6000;
        let (r, g, b) = if k == 0 {
            (c, x, 0)
        } else if k == 1 {
            (x, c, 0)
        } else if k == 2 {
            (0, c, x)
        } else if k == 3 {
            (0, x, c)
        } else if k == 4 {
            (x, 0, c)
        } else {
            (c, 0, x)
        };
        Rgb { r: scale(r + m), g: scale(g + m), b: scale(b + m) }
    }
}

} // verus!
