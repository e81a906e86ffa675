//! Dissimilarity of two colours, as a score: a smaller score means a closer colour.

use vstd::prelude::*;
use crate::color::Color;

verus! {

/// The metric by which palette colours are compared with a cell.
#[derive(Clone, Copy, Debug, PartialEq, Eq, Structural)]
pub enum DistanceMeasure {
    /// Squared Euclidean distance of the red, green and blue channels.
    Rgb,
    /// Squared Euclidean distance in the CIE L*a*b* colour space.
    Lab,
}

/// The square of the difference of two channels.
pub open spec fn channel_gap(a: u8, b: u8) -> int {
    (a as int - b as int) * (a as int - b as int)
}

/// The sum of the squared channel differences of two colours.
pub open spec fn rgb_distance(a: Color, b: Color) -> int {
    channel_gap(a.r, b.r) + channel_gap(a.g, b.g) + channel_gap(a.b, b.b)
}

/// The bit pattern of the single-precision number that the L*a*b* conversion gives as the
/// squared distance of two colours.
pub uninterp spec fn lab_distance_bits(a: Color, b: Color) -> u32;

/// The score of two colours under a metric.
pub open spec fn score(measure: DistanceMeasure, a: Color, b: Color) -> int {
    match measure {
        DistanceMeasure::Rgb => rgb_distance(a, b),
        DistanceMeasure::Lab => lab_distance_bits(a, b) as int,
    }
}

/// A squared channel difference is at most `255 * 255`, does not depend on the order of
/// its arguments, and is zero exactly for equal channels.
pub proof fn lemma_channel_gap(a: u8, b: u8)
    ensures
        0 <= channel_gap(a, b) <= 65025,
        channel_gap(a, b) == channel_gap(b, a),
        channel_gap(a, b) == 0 <==> a == b,
{
    let d = a as int - b as int;
    assert(0 <= d * d <= 65025 && d * d == (-d) * (-d) && (d * d == 0 <==> d == 0))
        by (nonlinear_arith)
        requires
            -255 <= d <= 255,
    ;
}

/// The channel metric is zero from a colour to itself, and between no two different
/// colours; it is the same in both directions and never negative.
pub proof fn lemma_rgb_distance(a: Color, b: Color)
    ensures
        rgb_distance(a, a) == 0,
        rgb_distance(a, b) == rgb_distance(b, a),
        0 <= rgb_distance(a, b) <= 195075,
        rgb_distance(a, b) == 0 <==> a == b,
{
    lemma_channel_gap(a.r, b.r);
    lemma_channel_gap(a.g, b.g);
    lemma_channel_gap(a.b, b.b);
    lemma_channel_gap(a.r, a.r);
    lemma_channel_gap(a.g, a.g);
    lemma_channel_gap(a.b, a.b);
}

fn gap(a: u8, b: u8) -> (d: u32)
    ensures
        d == channel_gap(a, b),
{
    proof {
        lemma_channel_gap(a, b);
    }
    let wide: u32 = if a >= b {
        (a - b) as u32
    } else {
        (b - a) as u32
    };
    assert(wide * wide == channel_gap(a, b)) by (nonlinear_arith)
        requires
            wide == a - b || wide == b - a,
    ;
    wide * wide
}

/// The sum of the squared channel differences of `a` and `b`.
pub fn distance_rgb(a: Color, b: Color) -> (d: u32)
    ensures
        d == rgb_distance(a, b),
        d == rgb_distance(b, a),
        a == b ==> d == 0,
{
    proof {
        lemma_rgb_distance(a, b);
        lemma_channel_gap(a.r, b.r);
        lemma_channel_gap(a.g, b.g);
        lemma_channel_gap(a.b, b.b);
    }
    gap(a.r, b.r) + gap(a.g, b.g) + gap(a.b, b.b)
}

/// Calls `lab::Lab::from_rgb` on each colour and `lab::Lab::squared_distance` on the two
/// results, and returns the bit pattern of the number that comes back. The contract only
/// gives that pattern its name. The number is a sum of squares, so it is never negative,
/// and the bit patterns of such numbers are ordered as the numbers are.
#[verifier::external_body]
pub(crate) fn distance_lab(a: Color, b: Color) -> (bits: u32)
    ensures
        bits == lab_distance_bits(a, b),
{
    let first = lab::Lab::from_rgb(&[a.r, a.g, a.b]);
    let second = lab::Lab::from_rgb(&[b.r, b.g, b.b]);
    first.squared_distance(&second).to_bits()
}

/// The score of `a` against `b` under the chosen metric: under `Rgb` the sum of the
/// squared channel differences, under `Lab` the bit pattern of the squared distance in
/// L*a*b* space.
pub fn distance(measure: DistanceMeasure, a: Color, b: Color) -> (d: u32)
    ensures
        d == score(measure, a, b),
{
    match measure {
        DistanceMeasure::Rgb => distance_rgb(a, b),
        DistanceMeasure::Lab => distance_lab(a, b),
    }
}

} // verus!
