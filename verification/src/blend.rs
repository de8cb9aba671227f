//! Tinting a pixel towards a highlight colour.

use vstd::prelude::*;

verus! {

/// The highlight of a row that is in both images: none.
pub const BLACK: (u8, u8, u8) = (0, 0, 0);

/// The highlight of a row that was removed.
pub const RED: (u8, u8, u8) = (255, 119, 119);

/// The highlight of a row that was added.
pub const GREEN: (u8, u8, u8) = (99, 195, 99);

/// How strongly a highlight is mixed into a pixel: `parts` out of `whole`.
#[derive(Debug, Clone, Copy, PartialEq, Eq, Structural)]
pub struct BlendRate {
    pub parts: u8,
    pub whole: u8,
}

/// The rate at which removed and added rows are tinted: a quarter.
pub open spec fn highlight_rate() -> BlendRate {
    BlendRate { parts: 1, whole: 4 }
}

/// The rate at which common rows are tinted: not at all.
pub open spec fn no_rate() -> BlendRate {
    BlendRate { parts: 0, whole: 1 }
}

impl BlendRate {
    /// A rate is a fraction between zero and one.
    pub open spec fn valid(self) -> bool {
        0 < self.whole && self.parts <= self.whole
    }

    /// The rate at which removed and added rows are tinted.
    pub fn highlight() -> (rate: BlendRate)
        ensures
            rate == highlight_rate(),
    {
        BlendRate { parts: 1, whole: 4 }
    }

    /// The rate that leaves a pixel as it is.
    pub fn none() -> (rate: BlendRate)
        ensures
            rate == no_rate(),
    {
        BlendRate { parts: 0, whole: 1 }
    }
}

/// One channel mixed with a highlight: `base * (1 - rate) + tint * rate`,
/// cut down to a whole number.
pub open spec fn mixed(base: u8, tint: u8, rate: BlendRate) -> int {
    (base * (rate.whole - rate.parts) + tint * rate.parts) / (rate.whole as int)
}

/// A pixel of four channels with its first three mixed with the highlight
/// `rgb` and its fourth, the alpha channel, as it is.
pub open spec fn tinted(pixel: Seq<u8>, rgb: (u8, u8, u8), rate: BlendRate) -> Seq<u8> {
    seq![
        mixed(pixel[0], rgb.0, rate) as u8,
        mixed(pixel[1], rgb.1, rate) as u8,
        mixed(pixel[2], rgb.2, rate) as u8,
        pixel[3],
    ]
}

/// A mixed channel lies between its two ends, so it is a channel value.
pub proof fn lemma_mixed_range(base: u8, tint: u8, rate: BlendRate)
    requires
        rate.valid(),
    ensures
        0 <= mixed(base, tint, rate) <= 255,
        rate.parts == 0 ==> mixed(base, tint, rate) == base,
        rate.parts == rate.whole ==> mixed(base, tint, rate) == tint,
{
    let whole = rate.whole as int;
    let parts = rate.parts as int;
    let sum = base * (whole - parts) + tint * parts;
    assert(0 <= sum <= 255 * whole) by (nonlinear_arith)
        requires
            0 <= base <= 255,
            0 <= tint <= 255,
            0 <= parts <= whole,
            sum == base * (whole - parts) + tint * parts,
    ;
    assert(0 <= sum / whole <= 255) by (nonlinear_arith)
        requires
            0 <= sum <= 255 * whole,
            0 < whole,
    ;
    if parts == 0 {
        assert(sum == base * whole) by (nonlinear_arith)
            requires
                sum == base * (whole - parts) + tint * parts,
                parts == 0,
        ;
        assert((base * whole) / whole == base) by (nonlinear_arith)
            requires
                0 < whole,
        ;
    }
    if parts == whole {
        assert(sum == tint * whole) by (nonlinear_arith)
            requires
                sum == base * (whole - parts) + tint * parts,
                parts == whole,
        ;
        assert((tint * whole) / whole == tint) by (nonlinear_arith)
            requires
                0 < whole,
        ;
    }
}

/// A pixel that is tinted at the rate of zero stays as it is, whatever the
/// highlight.
pub proof fn lemma_no_rate_keeps(pixel: Seq<u8>, rgb: (u8, u8, u8))
    requires
        pixel.len() == 4,
    ensures
        tinted(pixel, rgb, no_rate()) == pixel,
{
    lemma_mixed_range(pixel[0], rgb.0, no_rate());
    lemma_mixed_range(pixel[1], rgb.1, no_rate());
    lemma_mixed_range(pixel[2], rgb.2, no_rate());
}

/// Mixes one channel with a highlight.
fn blend_channel(base: u8, tint: u8, rate: BlendRate) -> (out: u8)
    requires
        rate.valid(),
    ensures
        out == mixed(base, tint, rate),
{
    proof {
        lemma_mixed_range(base, tint, rate);
        assert(base * (rate.whole - rate.parts) <= 255 * 255) by (nonlinear_arith)
            requires
                0 <= base <= 255,
                0 <= rate.whole - rate.parts <= 255,
        ;
        assert(tint * rate.parts <= 255 * 255) by (nonlinear_arith)
            requires
                0 <= tint <= 255,
                0 <= rate.parts <= 255,
        ;
    }
    let keep: u32 = (rate.whole - rate.parts) as u32;
    let sum: u32 = base as u32 * keep + tint as u32 * rate.parts as u32;
    (sum / rate.whole as u32) as u8
}

/// Tints a pixel towards `rgb`: each of its first three channels becomes
/// `base * (1 - rate) + highlight * rate`, cut down to a whole number, and
/// its alpha channel stays.
pub fn blend(base: [u8; 4], rgb: (u8, u8, u8), rate: BlendRate) -> (out: [u8; 4])
    requires
        rate.valid(),
    ensures
        out@ == tinted(base@, rgb, rate),
{
    let out = [
        blend_channel(base[0], rgb.0, rate),
        blend_channel(base[1], rgb.1, rate),
        blend_channel(base[2], rgb.2, rate),
        base[3],
    ];
    proof {
        lemma_mixed_range(base[0], rgb.0, rate);
        lemma_mixed_range(base[1], rgb.1, rate);
        lemma_mixed_range(base[2], rgb.2, rate);
    }
    out
}

} // verus!
