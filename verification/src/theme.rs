//! The mark, as pixels for the window and taskbar icon, and the tracking of headings.
use vstd::arithmetic::div_mod::lemma_fundamental_div_mod_converse;
use vstd::prelude::*;

use crate::text::{chars_of, to_uppercase, uppercase};

verus! {

/// The one blue: dark enough to carry white text on a button and to be read on paper.
pub const ACCENT: [u8; 3] = [0x15u8, 0x63u8, 0xC2u8];

/// Radius of the ring, the robot's body, in hundredths of the mark's side.
pub const MARK_RING_R: u32 = 36;

/// Stroke width of the ring, in hundredths of the mark's side.
pub const MARK_STROKE: u32 = 9;

/// Radius of the dot inside it, the operator, in hundredths of the mark's side.
pub const MARK_DOT_R: u32 = 11;

/// The tangent of half the break in the ring, in billionths. The break is 62 degrees
/// wide and centred on the ring's left side.
pub const MARK_GAP_TANGENT: i64 = 600_860_619;

/// How far the `s`th sample of pixel `i` lies from the middle, in sixths of a pixel.
pub open spec fn offset(px: int, i: int, s: int) -> int {
    6 * i + 2 * s + 1 - 3 * px
}

/// Whether a point lies on the mark. It is given by its distance from the middle, in
/// units of which `side` make a side.
pub open spec fn on_mark(side: int, u: int, v: int) -> bool {
    let d = u * u + v * v;
    let in_gap = u < 0 && (if v < 0 {
        -v
    } else {
        v
    }) * 1_000_000_000 < MARK_GAP_TANGENT * -u;
    let inner = (2 * MARK_RING_R - MARK_STROKE) * side;
    let outer = (2 * MARK_RING_R + MARK_STROKE) * side;
    let dot = MARK_DOT_R * side;
    ||| inner * inner <= 40_000 * d <= outer * outer && !in_gap
    ||| 10_000 * d <= dot * dot
}

/// Whether the sample in column `k % 3` of row `k / 3` of a pixel lies on the mark.
pub open spec fn sample_hits(px: int, x: int, y: int, k: int) -> bool {
    on_mark(6 * px, offset(px, x, k % 3), offset(px, y, k / 3))
}

/// How many of the first `k` samples of a pixel lie on the mark.
pub open spec fn hits(px: int, x: int, y: int, k: int) -> int
    decreases k,
{
    if k <= 0 {
        0
    } else {
        hits(px, x, y, k - 1) + if sample_hits(px, x, y, k - 1) {
            1int
        } else {
            0
        }
    }
}

/// A byte of the icon: the accent throughout, as opaque as the pixel is covered.
pub open spec fn icon_byte(px: int, i: int) -> int {
    let x = i / 4 % px;
    let y = i / 4 / px;
    if i % 4 == 3 {
        255 * hits(px, x, y, 9) / 9
    } else {
        ACCENT@[i % 4] as int
    }
}

/// Whether a point lies on the mark.
fn is_on_mark(px: u32, u: i64, v: i64) -> (r: bool)
    requires
        px <= 32_767,
        -98_301 <= u <= 98_301,
        -98_301 <= v <= 98_301,
    ensures
        r == on_mark(6 * px, u as int, v as int),
{
    let side: i64 = 6 * px as i64;
    proof {
        assert((2 * MARK_RING_R - MARK_STROKE) * side == 63 * side);
        assert((2 * MARK_RING_R + MARK_STROKE) * side == 81 * side);
        assert(MARK_DOT_R * side == 11 * side);
    }
    let inner: i64 = (2 * MARK_RING_R - MARK_STROKE) as i64 * side;
    let outer: i64 = (2 * MARK_RING_R + MARK_STROKE) as i64 * side;
    let dot: i64 = MARK_DOT_R as i64 * side;
    proof {
        lemma_square(u as int, 98_301);
        lemma_square(v as int, 98_301);
        lemma_square(inner as int, 15_925_000);
        lemma_square(outer as int, 15_925_000);
        lemma_square(dot as int, 15_925_000);
    }
    let d: i64 = u * u + v * v;
    let height: i64 = if v < 0 {
        -v
    } else {
        v
    };
    let in_gap: bool = u < 0 && height * 1_000_000_000 < MARK_GAP_TANGENT * -u;
    (inner * inner <= 40_000 * d && 40_000 * d <= outer * outer && !in_gap) || 10_000 * d <= dot
        * dot
}

proof fn lemma_square(n: int, bound: int)
    requires
        -bound <= n <= bound,
    ensures
        0 <= n * n <= bound * bound,
{
    assert(0 <= n * n <= bound * bound) by (nonlinear_arith)
        requires
            -bound <= n <= bound,
    ;
}

proof fn lemma_hits(px: int, x: int, y: int, k: int)
    requires
        0 <= k,
    ensures
        0 <= hits(px, x, y, k) <= k,
    decreases k,
{
    if k > 0 {
        lemma_hits(px, x, y, k - 1);
    }
}

/// The mark as pixels, RGBA: a broken ring with a dot inside it.
///
/// The ring is the robot's body and the dot is whoever is now in there. The ring does
/// not close: nothing physical crosses the distance. Each pixel is sampled three times
/// three, which keeps a small ring from looking ragged.
pub fn icon_rgba(px: u32) -> (r: Vec<u8>)
    requires
        px <= 32_767,
    ensures
        r@.len() == px * px * 4,
        forall|i: int| 0 <= i < r@.len() ==> (#[trigger] r@[i]) == icon_byte(px as int, i),
{
    let mut out: Vec<u8> = Vec::new();
    let mut y: u32 = 0;
    proof {
        assert(px * 0 == 0);
    }
    while y < px
        invariant
            y <= px <= 32_767,
            out@.len() == px * y * 4,
            forall|i: int| 0 <= i < out@.len() ==> (#[trigger] out@[i]) == icon_byte(px as int, i),
        decreases px - y,
    {
        let mut x: u32 = 0;
        while x < px
            invariant
                x <= px <= 32_767,
                y < px,
                out@.len() == (px * y + x) * 4,
                forall|i: int|
                    0 <= i < out@.len() ==> (#[trigger] out@[i]) == icon_byte(px as int, i),
            decreases px - x,
        {
            let mut count: u32 = 0;
            let mut k: u32 = 0;
            while k < 9
                invariant
                    k <= 9,
                    x < px <= 32_767,
                    y < px,
                    count == hits(px as int, x as int, y as int, k as int),
                    count <= k,
                decreases 9 - k,
            {
                let u: i64 = 6 * x as i64 + 2 * (k % 3) as i64 + 1 - 3 * px as i64;
                let v: i64 = 6 * y as i64 + 2 * (k / 3) as i64 + 1 - 3 * px as i64;
                if is_on_mark(px, u, v) {
                    count = count + 1;
                }
                k = k + 1;
            }
            let ghost before = out@;
            let ghost p = px * y + x;
            proof {
                assert(px * y == y * px) by (nonlinear_arith);
                lemma_fundamental_div_mod_converse(p, px as int, y as int, x as int);
            }
            out.push(ACCENT[0]);
            out.push(ACCENT[1]);
            out.push(ACCENT[2]);
            out.push((255 * count / 9) as u8);
            assert forall|i: int| 0 <= i < out@.len() implies (#[trigger] out@[i]) == icon_byte(
                px as int,
                i,
            ) by {
                if i < before.len() {
                    assert(out@[i] == before[i]);
                } else {
                    assert(i / 4 == p);
                }
            }
            x = x + 1;
        }
        proof {
            assert(px * y + px == px * (y + 1)) by (nonlinear_arith);
        }
        y = y + 1;
    }
    out
}

/// A text with a thin space between its characters.
pub open spec fn spaced_out(s: Seq<char>) -> Seq<char>
    decreases s.len(),
{
    if s.len() <= 1 {
        s
    } else {
        spaced_out(s.drop_last()).push('\u{2009}').push(s.last())
    }
}

/// A text with a thin space between its characters.
pub fn spaced(text: &str) -> (r: String)
    ensures
        r@ == spaced_out(text@),
{
    let chars = chars_of(text);
    let mut out = String::new();
    let mut i: usize = 0;
    assert(chars@.take(0) =~= Seq::<char>::empty());
    while i < chars.len()
        invariant
            i <= chars.len(),
            out@ == spaced_out(chars@.take(i as int)),
        decreases chars.len() - i,
    {
        assert(chars@.take(i + 1).drop_last() =~= chars@.take(i as int));
        if i > 0 {
            out.push('\u{2009}');
        }
        out.push(chars[i]);
        assert(out@ =~= spaced_out(chars@.take(i + 1)));
        i = i + 1;
    }
    assert(chars@.take(i as int) =~= chars@);
    out
}

/// Letter-spacing for a short heading: capitals with thin spaces between them.
pub fn track(text: &str) -> (r: String)
    ensures
        r@ == spaced_out(uppercase(text@)),
{
    spaced(&to_uppercase(text))
}

/// The mark is the same above as below the middle.
pub proof fn the_mark_is_symmetric(side: int, u: int, v: int)
    ensures
        on_mark(side, u, v) == on_mark(side, u, -v),
{
    assert(v * v == (-v) * (-v)) by (nonlinear_arith);
}

/// The mark is a dot in a broken ring: the middle is on it, nothing between the dot and the
/// ring is, nothing outside the ring is, and the ring is open on its left, where the height is
/// less than the break's tangent of the way out.
pub proof fn the_mark_is_a_dot_in_a_broken_ring(side: int, u: int, v: int)
    requires
        side > 0,
    ensures
        on_mark(side, 0, 0),
        ({
            let d = u * u + v * v;
            let (dot, inner, outer) = (11 * side, 63 * side, 81 * side);
            &&& 10_000 * d <= dot * dot ==> on_mark(side, u, v)
            &&& 10_000 * d > dot * dot && 40_000 * d < inner * inner ==> !on_mark(side, u, v)
            &&& 10_000 * d > dot * dot && 40_000 * d > outer * outer ==> !on_mark(side, u, v)
            &&& inner * inner <= 40_000 * d <= outer * outer && u >= 0 ==> on_mark(side, u, v)
            &&& 10_000 * d > dot * dot && u < 0 && 600_860_619 * u < 1_000_000_000 * v
                < -600_860_619 * u ==> !on_mark(side, u, v)
            &&& inner * inner <= 40_000 * d <= outer * outer && u < 0 && (1_000_000_000 * v
                <= 600_860_619 * u || 1_000_000_000 * v >= -600_860_619 * u) ==> on_mark(side, u, v)
        }),
{
    let dot = MARK_DOT_R * side;
    assert(dot * dot >= 0) by (nonlinear_arith);
    assert(0 * 0 + 0 * 0 == 0int);
}

/// The samples of a pixel are spread evenly: those of the last pixel mirror those of the first
/// one, and neighbours are a third of a pixel apart, across pixels too.
pub proof fn samples_are_spread_evenly(px: int, i: int, s: int)
    ensures
        offset(px, px - 1 - i, 2 - s) == -offset(px, i, s),
        offset(px, i, s + 1) == offset(px, i, s) + 2,
        offset(px, i + 1, 0) == offset(px, i, 2) + 2,
{
}

/// A pixel is as opaque as the mark covers it: fully where every sample is on it, not at all
/// where none is, and in ninths between.
pub proof fn a_pixel_is_as_opaque_as_it_is_covered(px: int, x: int, y: int, k: int)
    requires
        0 <= k <= 9,
    ensures
        0 <= hits(px, x, y, k) <= k,
        hits(px, x, y, k) == k <==> forall|j: int| 0 <= j < k ==> #[trigger] sample_hits(px, x, y, j),
        hits(px, x, y, k) == 0 <==> forall|j: int| 0 <= j < k ==> !(#[trigger] sample_hits(px, x, y, j)),
    decreases k,
{
    if k > 0 {
        a_pixel_is_as_opaque_as_it_is_covered(px, x, y, k - 1);
    }
}

/// Every second character of a spaced text is the text's, and those between are thin spaces.
pub proof fn spaces_stand_between_characters(s: Seq<char>, i: int)
    requires
        0 <= i < s.len(),
    ensures
        spaced_out(s).len() == 2 * s.len() - 1,
        spaced_out(s)[2 * i] == s[i],
        i + 1 < s.len() ==> spaced_out(s)[2 * i + 1] == '\u{2009}',
    decreases s.len(),
{
    if s.len() > 1 {
        let front = s.drop_last();
        if i < front.len() {
            spaces_stand_between_characters(front, i);
        } else {
            spaces_stand_between_characters(front, 0);
        }
    }
}

} // verus!
