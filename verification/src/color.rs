//! Color model: gamma decoding into a fixed-point linear space, the
//! squared-distance metric used for nearest-color search, and a running
//! mean over pixel samples.

use vstd::prelude::*;
use vstd::arithmetic::div_mod::{lemma_div_multiples_vanish_fancy, lemma_div_denominator};

verus! {

/// Largest value of a linear channel: `255 * 255`, the gamma decoding of a
/// full-intensity 8-bit sample.
pub const LINEAR_MAX: u32 = 65025;

/// An 8-bit gamma-encoded RGB pixel sample, as stored in images.
#[derive(Clone, Copy, Debug, PartialEq, Eq, Structural)]
pub struct Rgb8 {
    pub r: u8,
    pub g: u8,
    pub b: u8,
}

/// A color with fixed-point channels in a linear (gamma-decoded) space.
/// Each channel lies in `0 ..= LINEAR_MAX`.
#[derive(Clone, Copy, Debug, PartialEq, Eq, Structural)]
pub struct LinColor {
    pub r: u32,
    pub g: u32,
    pub b: u32,
}

impl LinColor {
    /// All channels within the representable range of the linear space.
    pub open spec fn in_range(self) -> bool {
        self.r <= LINEAR_MAX && self.g <= LINEAR_MAX && self.b <= LINEAR_MAX
    }
}

/// Gamma decoding of one 8-bit channel: the sample squared, which maps
/// `0 ..= 255` onto `0 ..= LINEAR_MAX` with exponent 2.
pub open spec fn linear_channel(v: u8) -> u32 {
    (v * v) as u32
}

/// The gamma decoding of a whole pixel.
pub open spec fn linear_of(p: Rgb8) -> LinColor {
    LinColor { r: linear_channel(p.r), g: linear_channel(p.g), b: linear_channel(p.b) }
}

/// Maps a gamma-encoded 8-bit sample into the fixed-point linear space.
pub fn to_linear(p: Rgb8) -> (c: LinColor)
    ensures
        c == linear_of(p),
        c.in_range(),
{
    proof {
        assert(p.r * p.r <= 65025 && p.g * p.g <= 65025 && p.b * p.b <= 65025)
            by (nonlinear_arith)
            requires p.r <= 255, p.g <= 255, p.b <= 255;
    }
    let r: u32 = (p.r as u32) * (p.r as u32);
    let g: u32 = (p.g as u32) * (p.g as u32);
    let b: u32 = (p.b as u32) * (p.b as u32);
    LinColor { r, g, b }
}

/// Squared Euclidean distance between two colors, channel by channel.
/// No square root is taken: the squared form orders distances the same way.
pub open spec fn dist2(a: LinColor, b: LinColor) -> int {
    (a.r - b.r) * (a.r - b.r) + (a.g - b.g) * (a.g - b.g) + (a.b - b.b) * (a.b - b.b)
}

/// Squared Euclidean distance across the 3 channels.
pub fn distance2(a: &LinColor, b: &LinColor) -> (d: u64)
    requires
        a.in_range(),
        b.in_range(),
    ensures
        d == dist2(*a, *b),
{
    let dr: i64 = (a.r as i64) - (b.r as i64);
    let dg: i64 = (a.g as i64) - (b.g as i64);
    let db: i64 = (a.b as i64) - (b.b as i64);
    assert(dr * dr <= 65025i64 * 65025i64 && dr * dr >= 0) by (nonlinear_arith)
        requires -65025 <= dr <= 65025;
    assert(dg * dg <= 65025i64 * 65025i64 && dg * dg >= 0) by (nonlinear_arith)
        requires -65025 <= dg <= 65025;
    assert(db * db <= 65025i64 * 65025i64 && db * db >= 0) by (nonlinear_arith)
        requires -65025 <= db <= 65025;
    ((dr * dr) as u64) + ((dg * dg) as u64) + ((db * db) as u64)
}

/// A squared distance is never negative.
pub proof fn lemma_dist2_nonneg(a: LinColor, b: LinColor)
    ensures
        dist2(a, b) >= 0,
        a == b ==> dist2(a, b) == 0,
{
    assert((a.r - b.r) * (a.r - b.r) >= 0) by (nonlinear_arith);
    assert((a.g - b.g) * (a.g - b.g) >= 0) by (nonlinear_arith);
    assert((a.b - b.b) * (a.b - b.b) >= 0) by (nonlinear_arith);
    if a == b {
        assert((a.r - b.r) * (a.r - b.r) == 0) by (nonlinear_arith)
            requires
                a.r == b.r,
        ;
        assert((a.g - b.g) * (a.g - b.g) == 0) by (nonlinear_arith)
            requires
                a.g == b.g,
        ;
        assert((a.b - b.b) * (a.b - b.b) == 0) by (nonlinear_arith)
            requires
                a.b == b.b,
        ;
    }
}

/// Sum of the linear red channels of a pixel sequence.
pub open spec fn sum_r(s: Seq<Rgb8>) -> int
    decreases s.len(),
{
    if s.len() == 0 {
        0
    } else {
        sum_r(s.drop_last()) + linear_of(s.last()).r
    }
}

/// Sum of the linear green channels of a pixel sequence.
pub open spec fn sum_g(s: Seq<Rgb8>) -> int
    decreases s.len(),
{
    if s.len() == 0 {
        0
    } else {
        sum_g(s.drop_last()) + linear_of(s.last()).g
    }
}

/// Sum of the linear blue channels of a pixel sequence.
pub open spec fn sum_b(s: Seq<Rgb8>) -> int
    decreases s.len(),
{
    if s.len() == 0 {
        0
    } else {
        sum_b(s.drop_last()) + linear_of(s.last()).b
    }
}

/// The arithmetic mean of the pixels' linear colors, each channel rounded to
/// the nearest representable value (ties upward).
pub open spec fn mean_of(s: Seq<Rgb8>) -> LinColor
    recommends
        s.len() > 0,
{
    let n = s.len() as int;
    LinColor {
        r: ((sum_r(s) + n / 2) / n) as u32,
        g: ((sum_g(s) + n / 2) / n) as u32,
        b: ((sum_b(s) + n / 2) / n) as u32,
    }
}

/// The running mean over an arbitrary count of pixel samples: each sample is
/// gamma-decoded and accumulated; the final mean is emitted once the count is
/// known in full.
pub fn mean_color(pixels: &Vec<Rgb8>) -> (m: Option<LinColor>)
    ensures
        match m {
            Some(c) => {
                &&& pixels@.len() > 0
                &&& c == mean_of(pixels@)
                &&& c.in_range()
            },
            None => pixels@.len() == 0,
        },
{
    let n = pixels.len();
    if n == 0 {
        return None;
    }
    let mut acc_r: u128 = 0;
    let mut acc_g: u128 = 0;
    let mut acc_b: u128 = 0;
    let mut i: usize = 0;
    while i < n
        invariant
            i <= n,
            n == pixels@.len(),
            acc_r == sum_r(pixels@.take(i as int)),
            acc_g == sum_g(pixels@.take(i as int)),
            acc_b == sum_b(pixels@.take(i as int)),
            acc_r <= LINEAR_MAX * i,
            acc_g <= LINEAR_MAX * i,
            acc_b <= LINEAR_MAX * i,
        decreases n - i,
    {
        let c = to_linear(pixels[i]);
        proof {
            assert(pixels@.take(i + 1).drop_last() =~= pixels@.take(i as int));
            assert(pixels@.take(i + 1).last() == pixels@[i as int]);
            assert(LINEAR_MAX * (i + 1) == LINEAR_MAX * i + LINEAR_MAX) by (nonlinear_arith);
            assert(LINEAR_MAX * (n as int) <= u128::MAX) by (nonlinear_arith)
                requires
                    n <= usize::MAX,
            ;
            assert(LINEAR_MAX * (i + 1) <= LINEAR_MAX * (n as int)) by (nonlinear_arith)
                requires
                    i + 1 <= n,
            ;
        }
        acc_r = acc_r + (c.r as u128);
        acc_g = acc_g + (c.g as u128);
        acc_b = acc_b + (c.b as u128);
        i = i + 1;
    }
    proof {
        assert(pixels@.take(n as int) =~= pixels@);
        assert(LINEAR_MAX * (n as int) <= u128::MAX) by (nonlinear_arith)
            requires
                n <= usize::MAX,
        ;
        lemma_mean_div_in_range(acc_r as int, n as int);
        lemma_mean_div_in_range(acc_g as int, n as int);
        lemma_mean_div_in_range(acc_b as int, n as int);
    }
    let half: u128 = (n as u128) / 2;
    let r: u32 = ((acc_r + half) / (n as u128)) as u32;
    let g: u32 = ((acc_g + half) / (n as u128)) as u32;
    let b: u32 = ((acc_b + half) / (n as u128)) as u32;
    Some(LinColor { r, g, b })
}

/// The rounded mean of channel values stays within the linear range.
proof fn lemma_mean_div_in_range(sum: int, n: int)
    requires
        n > 0,
        0 <= sum <= LINEAR_MAX * n,
    ensures
        0 <= (sum + n / 2) / n <= LINEAR_MAX,
{
    assert(0 <= (sum + n / 2) / n <= LINEAR_MAX) by (nonlinear_arith)
        requires
            n > 0,
            0 <= sum <= LINEAR_MAX * n,
            0 <= n / 2 < n,
            sum + n / 2 < (LINEAR_MAX + 1) * n,
    ;
}

/// The mean over a uniform sequence is exactly the shared color: every pixel
/// equal to `c` makes the mean the gamma decoding of `c` itself.
pub proof fn lemma_mean_uniform(s: Seq<Rgb8>, c: Rgb8)
    requires
        s.len() > 0,
        forall|i: int| 0 <= i < s.len() ==> s[i] == c,
    ensures
        mean_of(s) == linear_of(c),
{
    let n = s.len() as int;
    lemma_sum_uniform(s, c);
    assert(linear_channel(c.r) <= LINEAR_MAX && linear_channel(c.g) <= LINEAR_MAX
        && linear_channel(c.b) <= LINEAR_MAX) by (nonlinear_arith);
    lemma_div_multiples_vanish_fancy(linear_of(c).r as int, n / 2, n);
    lemma_div_multiples_vanish_fancy(linear_of(c).g as int, n / 2, n);
    lemma_div_multiples_vanish_fancy(linear_of(c).b as int, n / 2, n);
    assert(sum_r(s) + n / 2 == n * (linear_of(c).r as int) + n / 2);
    assert((n * (linear_of(c).r as int) + n / 2) / n == linear_of(c).r as int);
}

/// Channel sums of a uniform sequence are the count times the shared value.
proof fn lemma_sum_uniform(s: Seq<Rgb8>, c: Rgb8)
    requires
        forall|i: int| 0 <= i < s.len() ==> s[i] == c,
    ensures
        sum_r(s) == s.len() * (linear_of(c).r as int),
        sum_g(s) == s.len() * (linear_of(c).g as int),
        sum_b(s) == s.len() * (linear_of(c).b as int),
    decreases s.len(),
{
    if s.len() == 0 {
    } else {
        lemma_sum_uniform(s.drop_last(), c);
        assert(s.last() == c);
        assert((s.len() - 1) * (linear_of(c).r as int) + linear_of(c).r == s.len() * (linear_of(
            c,
        ).r as int)) by (nonlinear_arith);
        assert((s.len() - 1) * (linear_of(c).g as int) + linear_of(c).g == s.len() * (linear_of(
            c,
        ).g as int)) by (nonlinear_arith);
        assert((s.len() - 1) * (linear_of(c).b as int) + linear_of(c).b == s.len() * (linear_of(
            c,
        ).b as int)) by (nonlinear_arith);
    }
}

/// The mean over a sequence of two colors in equal number: each channel is
/// the midpoint of the two decoded channels, rounded upward on ties. When
/// the two decoded channel values have equal parity this is their exact
/// midpoint.
pub proof fn lemma_mean_two_tone(s: Seq<Rgb8>, a: Rgb8, b: Rgb8)
    requires
        s.len() > 0,
        s.len() % 2 == 0,
        forall|i: int| 0 <= i < s.len() / 2 ==> s[i] == a,
        forall|i: int| s.len() / 2 <= i < s.len() ==> s[i] == b,
    ensures
        mean_of(s) == (LinColor {
            r: (((linear_of(a).r + linear_of(b).r + 1) as int / 2) as u32),
            g: (((linear_of(a).g + linear_of(b).g + 1) as int / 2) as u32),
            b: (((linear_of(a).b + linear_of(b).b + 1) as int / 2) as u32),
        }),
{
    let n = s.len() as int;
    let k = n / 2;
    let first = s.take(k);
    let second = s.skip(k);
    lemma_sum_concat(first, second);
    assert(first + second =~= s);
    lemma_sum_uniform(first, a);
    lemma_sum_uniform(second, b);
    lemma_two_tone_channel(k, linear_of(a).r as int, linear_of(b).r as int);
    lemma_two_tone_channel(k, linear_of(a).g as int, linear_of(b).g as int);
    lemma_two_tone_channel(k, linear_of(a).b as int, linear_of(b).b as int);
}

/// `(k*x + k*y + k) / (2*k) == (x + y + 1) / 2` for positive `k`.
proof fn lemma_two_tone_channel(k: int, x: int, y: int)
    requires
        k > 0,
        0 <= x,
        0 <= y,
    ensures
        (k * x + k * y + k) / (2 * k) == (x + y + 1) / 2,
{
    let m = x + y + 1;
    assert(k * x + k * y + k == m * k) by (nonlinear_arith)
        requires
            m == x + y + 1,
    ;
    lemma_div_denominator(m * k, k, 2);
    assert((m * k) / k == m) by {
        vstd::arithmetic::div_mod::lemma_div_by_multiple(m, k);
    }
    assert(k * 2 == 2 * k);
    assert((m * k) / (k * 2) == ((m * k) / k) / 2);
}

/// Channel sums add over concatenation.
proof fn lemma_sum_concat(s: Seq<Rgb8>, t: Seq<Rgb8>)
    ensures
        sum_r(s + t) == sum_r(s) + sum_r(t),
        sum_g(s + t) == sum_g(s) + sum_g(t),
        sum_b(s + t) == sum_b(s) + sum_b(t),
    decreases t.len(),
{
    if t.len() == 0 {
        assert(s + t =~= s);
    } else {
        lemma_sum_concat(s, t.drop_last());
        assert((s + t).drop_last() =~= s + t.drop_last());
        assert((s + t).last() == t.last());
    }
}

} // verus!
