use vstd::prelude::*;

verus! {

/// A colour with three fixed-point channels, for use in calculations.
#[derive(Clone, Copy, Debug, PartialEq, Eq, Structural)]
pub struct Rgb {
    pub r: i16,
    pub g: i16,
    pub b: i16,
}

/// Channel-wise totals of any number of colours.
#[derive(Clone, Copy, Debug, PartialEq, Eq, Structural)]
pub struct RgbSum {
    pub r: i128,
    pub g: i128,
    pub b: i128,
}

/// How many units of a channel make one step of an 8-bit channel.
pub const BYTE_SCALE: i16 = 64;

/// The channel value that stands for the 8-bit value `v`.
pub open spec fn channel_of_byte(v: u8) -> int {
    v * 64
}

/// The 8-bit value that a channel shows as: whole steps only, and nothing
/// below 0 or above 255.
pub open spec fn byte_of_channel(c: i16) -> int {
    if c < 0 {
        0
    } else if c / 64 > 255 {
        255
    } else {
        c as int / 64
    }
}

/// An 8-bit value that was made a channel shows as itself.
pub proof fn lemma_byte_round_trip(v: u8)
    ensures
        i16::MIN <= channel_of_byte(v) <= i16::MAX,
        byte_of_channel(channel_of_byte(v) as i16) == v,
{
}

/// The square of `x`.
pub open spec fn sq(x: int) -> int {
    x * x
}

/// Squared Euclidean distance between two colours.
pub open spec fn sq_dist(a: Rgb, b: Rgb) -> int {
    sq(a.r - b.r) + sq(a.g - b.g) + sq(a.b - b.b)
}

/// The largest squared distance two colours can have.
pub open spec fn max_sq_dist() -> int {
    12884508675
}

/// The square of a difference between two channels is zero or more and at
/// most the square of the widest difference.
pub proof fn lemma_sq_bounds(x: int)
    requires
        -65535 <= x <= 65535,
    ensures
        0 <= sq(x) <= 65535 * 65535,
{
    assert(0 <= x * x <= 65535 * 65535) by (nonlinear_arith)
        requires
            -65535 <= x <= 65535,
    ;
}

/// A squared distance is never negative and never above `max_sq_dist()`.
pub proof fn lemma_sq_dist_bounds(a: Rgb, b: Rgb)
    ensures
        0 <= sq_dist(a, b) <= max_sq_dist(),
{
    lemma_sq_bounds(a.r - b.r);
    lemma_sq_bounds(a.g - b.g);
    lemma_sq_bounds(a.b - b.b);
}

/// The distance from `a` to `b` is the distance from `b` to `a`.
pub proof fn lemma_sq_dist_symmetric(a: Rgb, b: Rgb)
    ensures
        sq_dist(a, b) == sq_dist(b, a),
{
    assert(sq(a.r - b.r) == sq(b.r - a.r)) by (nonlinear_arith);
    assert(sq(a.g - b.g) == sq(b.g - a.g)) by (nonlinear_arith);
    assert(sq(a.b - b.b) == sq(b.b - a.b)) by (nonlinear_arith);
}

/// The distance is zero exactly between a colour and itself.
pub proof fn lemma_sq_dist_zero_iff_equal(a: Rgb, b: Rgb)
    ensures
        sq_dist(a, a) == 0,
        sq_dist(a, b) == 0 <==> a == b,
{
    let dr = a.r - b.r;
    let dg = a.g - b.g;
    let db = a.b - b.b;
    assert(sq(dr) >= 0 && (sq(dr) == 0 ==> dr == 0)) by (nonlinear_arith);
    assert(sq(dg) >= 0 && (sq(dg) == 0 ==> dg == 0)) by (nonlinear_arith);
    assert(sq(db) >= 0 && (sq(db) == 0 ==> db == 0)) by (nonlinear_arith);
    assert(sq(0) == 0);
    if sq_dist(a, b) == 0 {
        assert(a.r == b.r && a.g == b.g && a.b == b.b);
    }
}

impl Rgb {
    /// The colour with the channels `r`, `g` and `b`.
    pub fn new(r: i16, g: i16, b: i16) -> (c: Rgb)
        ensures
            c == (Rgb { r: r, g: g, b: b }),
    {
        Rgb { r: r, g: g, b: b }
    }

    /// The colour with every channel at zero.
    pub fn black() -> (c: Rgb)
        ensures
            c == (Rgb { r: 0, g: 0, b: 0 }),
    {
        Rgb::new(0, 0, 0)
    }

    /// The colour of an 8-bit pixel.
    pub fn from_bytes(r: u8, g: u8, b: u8) -> (c: Rgb)
        ensures
            c.r == channel_of_byte(r),
            c.g == channel_of_byte(g),
            c.b == channel_of_byte(b),
    {
        Rgb { r: r as i16 * BYTE_SCALE, g: g as i16 * BYTE_SCALE, b: b as i16 * BYTE_SCALE }
    }

    /// The 8-bit pixel that shows this colour.
    pub fn to_bytes(&self) -> (bytes: (u8, u8, u8))
        ensures
            bytes.0 == byte_of_channel(self.r),
            bytes.1 == byte_of_channel(self.g),
            bytes.2 == byte_of_channel(self.b),
    {
        (byte_of(self.r), byte_of(self.g), byte_of(self.b))
    }

    /// Squared Euclidean distance to `other`, computed without rounding or
    /// saturation.
    pub fn sq_euclidean_distance(&self, other: &Rgb) -> (d: i64)
        ensures
            d == sq_dist(*self, *other),
            0 <= d <= max_sq_dist(),
    {
        let dr: i64 = self.r as i64 - other.r as i64;
        let dg: i64 = self.g as i64 - other.g as i64;
        let db: i64 = self.b as i64 - other.b as i64;
        proof {
            lemma_sq_bounds(dr as int);
            lemma_sq_bounds(dg as int);
            lemma_sq_bounds(db as int);
        }
        dr * dr + dg * dg + db * db
    }
}

/// The 8-bit value that the channel `c` shows as.
fn byte_of(c: i16) -> (v: u8)
    ensures
        v == byte_of_channel(c),
{
    if c < 0 {
        0
    } else if c / BYTE_SCALE > 255 {
        255
    } else {
        (c / BYTE_SCALE) as u8
    }
}

impl RgbSum {
    /// The total of no colours at all.
    pub fn zero() -> (s: RgbSum)
        ensures
            s == (RgbSum { r: 0, g: 0, b: 0 }),
    {
        RgbSum { r: 0, g: 0, b: 0 }
    }

    /// Component-wise sum of a running total and one more colour.
    pub fn add(self, p: Rgb) -> (s: RgbSum)
        requires
            i128::MIN <= self.r + p.r <= i128::MAX,
            i128::MIN <= self.g + p.g <= i128::MAX,
            i128::MIN <= self.b + p.b <= i128::MAX,
        ensures
            s.r == self.r + p.r,
            s.g == self.g + p.g,
            s.b == self.b + p.b,
    {
        RgbSum { r: self.r + p.r as i128, g: self.g + p.g as i128, b: self.b + p.b as i128 }
    }
}

} // verus!
