//! Pixels on their way to the encoder: shrinking a BGRA picture, and turning it
//! into the planes of a 4:2:0 picture.
use vstd::arithmetic::div_mod::lemma_fundamental_div_mod_converse;
use vstd::prelude::*;

verus! {

/// The byte of channel `c` of the pixel in column `x` of row `y`.
pub open spec fn channel(bgra: Seq<u8>, width: int, x: int, y: int, c: int) -> u8 {
    bgra[(y * width + x) * 4 + c]
}

/// The first source row or column that falls into place `i` of `out`.
pub open spec fn block_start(i: int, source: int, out: int) -> int {
    i * source / out
}

/// One past the last source row or column that falls into place `i` of `out`.
pub open spec fn block_end(i: int, source: int, out: int) -> int {
    let end = ((i + 1) * source + out - 1) / out;
    let capped = if end < source {
        end
    } else {
        source
    };
    let least = block_start(i, source, out) + 1;
    if capped > least {
        capped
    } else {
        least
    }
}

/// The sum of a channel over columns `x0..x1` of row `y`.
pub open spec fn row_sum(bgra: Seq<u8>, width: int, x0: int, x1: int, y: int, c: int) -> int
    decreases x1 - x0,
{
    if x1 <= x0 {
        0
    } else {
        row_sum(bgra, width, x0, x1 - 1, y, c) + channel(bgra, width, x1 - 1, y, c)
    }
}

/// The sum of a channel over columns `x0..x1` of rows `y0..y1`.
pub open spec fn block_sum(
    bgra: Seq<u8>,
    width: int,
    x0: int,
    x1: int,
    y0: int,
    y1: int,
    c: int,
) -> int
    decreases y1 - y0,
{
    if y1 <= y0 {
        0
    } else {
        block_sum(bgra, width, x0, x1, y0, y1 - 1, c) + row_sum(bgra, width, x0, x1, y1 - 1, c)
    }
}

/// A byte of the shrunk picture: the average of the source pixels that fall into
/// its pixel, and full opacity.
pub open spec fn shrunk_byte(
    src: Seq<u8>,
    sw: int,
    sh: int,
    dw: int,
    dh: int,
    i: int,
) -> int {
    let c = i % 4;
    let x = i / 4 % dw;
    let y = i / 4 / dw;
    if c == 3 {
        0xff
    } else {
        let (x0, x1) = (block_start(x, sw, dw), block_end(x, sw, dw));
        let (y0, y1) = (block_start(y, sh, dh), block_end(y, sh, dh));
        block_sum(src, sw, x0, x1, y0, y1, c) / ((x1 - x0) * (y1 - y0))
    }
}

proof fn lemma_block(i: int, source: int, out: int)
    requires
        0 <= i < out,
        source > 0,
    ensures
        0 <= block_start(i, source, out) < block_end(i, source, out) <= source,
        i * source <= out * source,
        (i + 1) * source <= out * source,
{
    let s = block_start(i, source, out);
    assert(0 <= s < source && i * source <= out * source && (i + 1) * source <= out * source)
        by (nonlinear_arith)
        requires
            0 <= i < out,
            source > 0,
            s == i * source / out,
    ;
}

proof fn lemma_pixel(width: int, height: int, x: int, y: int, len: int)
    requires
        0 <= x < width,
        0 <= y < height,
        width * height * 4 <= len,
    ensures
        0 <= y * width,
        0 <= (y * width + x) * 4,
        (y * width + x) * 4 + 3 < len,
{
    assert(y * width + width <= width * height) by (nonlinear_arith)
        requires
            0 <= y < height,
            0 <= x < width,
    ;
    assert(0 <= y * width) by (nonlinear_arith)
        requires
            0 <= y,
            0 <= width,
    ;
}

/// The sums of the three colour channels of a block, and their bounds.
fn sum_block(src: &[u8], sw: usize, x0: usize, x1: usize, y0: usize, y1: usize, Ghost(sh): Ghost<
    int,
>) -> (r: (u128, u128, u128))
    requires
        x0 < x1 <= sw,
        y0 < y1 <= sh,
        sw * sh * 4 <= src.len(),
    ensures
        r.0 == block_sum(src@, sw as int, x0 as int, x1 as int, y0 as int, y1 as int, 0),
        r.1 == block_sum(src@, sw as int, x0 as int, x1 as int, y0 as int, y1 as int, 1),
        r.2 == block_sum(src@, sw as int, x0 as int, x1 as int, y0 as int, y1 as int, 2),
        r.0 <= 255 * ((x1 - x0) * (y1 - y0)),
        r.1 <= 255 * ((x1 - x0) * (y1 - y0)),
        r.2 <= 255 * ((x1 - x0) * (y1 - y0)),
{
    let mut b: u128 = 0;
    let mut g: u128 = 0;
    let mut r: u128 = 0;
    let mut sy: usize = y0;
    let ghost span = x1 - x0;
    proof {
        assert(span * 0 == 0);
    }
    while sy < y1
        invariant
            x0 < x1 <= sw,
            y0 <= sy <= y1 <= sh,
            sw * sh * 4 <= src.len(),
            span == x1 - x0,
            b == block_sum(src@, sw as int, x0 as int, x1 as int, y0 as int, sy as int, 0),
            g == block_sum(src@, sw as int, x0 as int, x1 as int, y0 as int, sy as int, 1),
            r == block_sum(src@, sw as int, x0 as int, x1 as int, y0 as int, sy as int, 2),
            b <= 255 * (span * (sy - y0)),
            g <= 255 * (span * (sy - y0)),
            r <= 255 * (span * (sy - y0)),
            span <= usize::MAX,
        decreases y1 - sy,
    {
        let mut sx: usize = x0;
        let mut rb: u128 = 0;
        let mut rg: u128 = 0;
        let mut rr: u128 = 0;
        while sx < x1
            invariant
                x0 <= sx <= x1 <= sw,
                sy < sh,
                sw * sh * 4 <= src.len(),
                rb == row_sum(src@, sw as int, x0 as int, sx as int, sy as int, 0),
                rg == row_sum(src@, sw as int, x0 as int, sx as int, sy as int, 1),
                rr == row_sum(src@, sw as int, x0 as int, sx as int, sy as int, 2),
                rb <= 255 * (sx - x0),
                rg <= 255 * (sx - x0),
                rr <= 255 * (sx - x0),
            decreases x1 - sx,
        {
            proof {
                lemma_pixel(sw as int, sh, sx as int, sy as int, src@.len() as int);
            }
            let p: usize = (sy * sw + sx) * 4;
            rb = rb + src[p] as u128;
            rg = rg + src[p + 1] as u128;
            rr = rr + src[p + 2] as u128;
            sx = sx + 1;
        }
        proof {
            let k = sy - y0;
            assert(span * (k + 1) == span * k + span) by (nonlinear_arith);
            assert(span * (k + 1) <= sw * sh && 0 <= span * k) by (nonlinear_arith)
                requires
                    0 <= span <= sw,
                    0 <= k < sh,
            ;
        }
        b = b + rb;
        g = g + rg;
        r = r + rr;
        sy = sy + 1;
    }
    (b, g, r)
}

/// Box-filter downscale of a BGRA image of `sw` by `sh` pixels to `dw` by `dh`.
///
/// Encode cost tracks pixel count, so shrinking is the cheapest large saving on
/// a small board. Averaging the source block matters for text: taking single
/// points turns thin strokes into noise.
pub fn downscale_bgra(src: &[u8], sw: usize, sh: usize, dw: usize, dh: usize) -> (dst: Vec<u8>)
    requires
        sw > 0,
        sh > 0,
        sw * sh * 4 <= src.len(),
        dw * dh * 4 <= usize::MAX,
        dw * sw <= usize::MAX,
        dh * sh <= usize::MAX,
    ensures
        dst.len() == dw * dh * 4,
        forall|i: int|
            0 <= i < dst.len() ==> dst@[i] == shrunk_byte(
                src@,
                sw as int,
                sh as int,
                dw as int,
                dh as int,
                i,
            ),
{
    let mut dst: Vec<u8> = Vec::new();
    let mut y: usize = 0;
    proof {
        assert(0 * dw == 0);
    }
    while y < dh
        invariant
            sw > 0,
            sh > 0,
            sw * sh * 4 <= src.len(),
            dw * dh * 4 <= usize::MAX,
            dw * sw <= usize::MAX,
            dh * sh <= usize::MAX,
            y <= dh,
            dst.len() == y * dw * 4,
            forall|i: int|
                0 <= i < dst.len() ==> dst@[i] == shrunk_byte(
                    src@,
                    sw as int,
                    sh as int,
                    dw as int,
                    dh as int,
                    i,
                ),
        decreases dh - y,
    {
        proof {
            lemma_block(y as int, sh as int, dh as int);
        }
        let y0: usize = y * sh / dh;
        let y1: usize = block_end_of(y, sh, dh);
        let mut x: usize = 0;
        while x < dw
            invariant
                sw > 0,
                sh > 0,
                sw * sh * 4 <= src.len(),
                dw * dh * 4 <= usize::MAX,
                dw * sw <= usize::MAX,
                y < dh,
                x <= dw,
                y0 == block_start(y as int, sh as int, dh as int),
                y1 == block_end(y as int, sh as int, dh as int),
                y0 < y1 <= sh,
                dst.len() == y * dw * 4 + x * 4,
                forall|i: int|
                    0 <= i < dst.len() ==> dst@[i] == shrunk_byte(
                        src@,
                        sw as int,
                        sh as int,
                        dw as int,
                        dh as int,
                        i,
                    ),
            decreases dw - x,
        {
            proof {
                lemma_block(x as int, sw as int, dw as int);
            }
            let x0: usize = x * sw / dw;
            let x1: usize = block_end_of(x, sw, dw);
            let sums = sum_block(src, sw, x0, x1, y0, y1, Ghost(sh as int));
            proof {
                let (a, b) = (x1 - x0, y1 - y0);
                assert(0 < a * b && a * b <= 0xFFFF_FFFF_FFFF_FFFF * 0xFFFF_FFFF_FFFF_FFFF)
                    by (nonlinear_arith)
                    requires
                        0 < a <= 0xFFFF_FFFF_FFFF_FFFF,
                        0 < b <= 0xFFFF_FFFF_FFFF_FFFF,
                ;
            }
            let n: u128 = (x1 - x0) as u128 * (y1 - y0) as u128;
            proof {
                assert forall|s: u128| s <= 255 * n implies #[trigger] (s / n) <= 255 by {
                    assert(s / n <= 255) by (nonlinear_arith)
                        requires
                            s <= 255 * n,
                            n > 0,
                    ;
                }
            }
            let ghost at = dst@.len() as int;
            dst.push((sums.0 / n) as u8);
            dst.push((sums.1 / n) as u8);
            dst.push((sums.2 / n) as u8);
            dst.push(0xff);
            proof {
                assert(at == (y * dw + x) * 4) by (nonlinear_arith)
                    requires
                        at == y * dw * 4 + x * 4,
                ;
                let p = y * dw + x;
                lemma_fundamental_div_mod_converse(p, dw as int, y as int, x as int);
                assert forall|i: int| 0 <= i < dst@.len() implies dst@[i] == shrunk_byte(
                    src@,
                    sw as int,
                    sh as int,
                    dw as int,
                    dh as int,
                    i,
                ) by {
                    if i >= at {
                        assert(i / 4 == p);
                    }
                }
            }
            x = x + 1;
        }
        proof {
            assert((y + 1) * dw * 4 == y * dw * 4 + dw * 4) by (nonlinear_arith);
        }
        y = y + 1;
    }
    proof {
        assert(dh * dw == dw * dh) by (nonlinear_arith);
    }
    dst
}

fn block_end_of(i: usize, source: usize, out: usize) -> (r: usize)
    requires
        i < out,
        source > 0,
        out * source <= usize::MAX,
    ensures
        r == block_end(i as int, source as int, out as int),
{
    proof {
        lemma_block(i as int, source as int, out as int);
    }
    let start: usize = i * source / out;
    let t: usize = (i + 1) * source;
    let down: usize = t / out;
    let end: usize = if t % out == 0 {
        down
    } else {
        assert(out > 1) by (nonlinear_arith)
            requires
                t % out != 0,
                out > 0,
        ;
        assert(down < usize::MAX) by (nonlinear_arith)
            requires
                down == t / out,
                out > 1,
                t <= usize::MAX,
        ;
        down + 1
    };
    proof {
        let (a, n) = (t as int, out as int);
        let (q, m) = (a / n, a % n);
        assert(a == n * q + m) by (nonlinear_arith)
            requires
                n > 0,
                q == a / n,
                m == a % n,
        ;
        if m == 0 {
            assert((a + n - 1) / n == q) by (nonlinear_arith)
                requires
                    a == n * q,
                    n > 0,
            ;
        } else {
            assert((a + n - 1) / n == q + 1) by (nonlinear_arith)
                requires
                    a == n * q + m,
                    0 < m < n,
            ;
        }
    }
    let capped: usize = if end < source {
        end
    } else {
        source
    };
    if capped > start + 1 {
        capped
    } else {
        start + 1
    }
}

/// Shrinking a picture of one colour gives a picture of that colour.
pub proof fn a_solid_picture_stays_solid(
    src: Seq<u8>,
    sw: int,
    sh: int,
    dw: int,
    dh: int,
    i: int,
    v: u8,
)
    requires
        sw > 0,
        sh > 0,
        dw > 0,
        dh > 0,
        0 <= i < dw * dh * 4,
        i % 4 < 3,
        forall|x: int, y: int|
            0 <= x < sw && 0 <= y < sh ==> (#[trigger] channel(src, sw, x, y, i % 4)) == v,
    ensures
        shrunk_byte(src, sw, sh, dw, dh, i) == v,
{
    let p = i / 4;
    let (x, y) = (p % dw, p / dw);
    assert(0 <= x < dw && 0 <= y < dh) by (nonlinear_arith)
        requires
            0 <= p < dw * dh,
            dw > 0,
            x == p % dw,
            y == p / dw,
    ;
    lemma_block(x, sw, dw);
    lemma_block(y, sh, dh);
    let (x0, x1) = (block_start(x, sw, dw), block_end(x, sw, dw));
    let (y0, y1) = (block_start(y, sh, dh), block_end(y, sh, dh));
    lemma_solid_sum(src, sw, sh, x0, x1, y0, y1, i % 4, v);
    let n = (x1 - x0) * (y1 - y0);
    assert(n > 0 && v * n / n == v) by (nonlinear_arith)
        requires
            x1 - x0 > 0,
            y1 - y0 > 0,
            n == (x1 - x0) * (y1 - y0),
            0 <= v,
    ;
}

proof fn lemma_solid_sum(
    src: Seq<u8>,
    sw: int,
    sh: int,
    x0: int,
    x1: int,
    y0: int,
    y1: int,
    c: int,
    v: u8,
)
    requires
        0 <= x0 <= x1 <= sw,
        0 <= y0 <= y1 <= sh,
        forall|x: int, y: int|
            0 <= x < sw && 0 <= y < sh ==> (#[trigger] channel(src, sw, x, y, c)) == v,
    ensures
        block_sum(src, sw, x0, x1, y0, y1, c) == v * ((x1 - x0) * (y1 - y0)),
    decreases y1 - y0,
{
    if y0 < y1 {
        lemma_solid_sum(src, sw, sh, x0, x1, y0, y1 - 1, c, v);
        lemma_solid_row(src, sw, sh, x0, x1, y1 - 1, c, v);
        let w = x1 - x0;
        assert(v * (w * (y1 - y0)) == v * (w * (y1 - 1 - y0)) + v * w) by (nonlinear_arith);
    } else {
        assert(v * ((x1 - x0) * 0) == 0) by (nonlinear_arith);
    }
}

proof fn lemma_solid_row(src: Seq<u8>, sw: int, sh: int, x0: int, x1: int, y: int, c: int, v: u8)
    requires
        0 <= x0 <= x1 <= sw,
        0 <= y < sh,
        forall|x: int, y: int|
            0 <= x < sw && 0 <= y < sh ==> (#[trigger] channel(src, sw, x, y, c)) == v,
    ensures
        row_sum(src, sw, x0, x1, y, c) == v * (x1 - x0),
    decreases x1 - x0,
{
    if x0 < x1 {
        lemma_solid_row(src, sw, sh, x0, x1 - 1, y, c, v);
        assert(channel(src, sw, x1 - 1, y, c) == v);
        assert(v * (x1 - x0) == v * (x1 - 1 - x0) + v) by (nonlinear_arith);
    } else {
        assert(v * 0 == 0);
    }
}

/// A source row or column falls into a place where the two share some of the picture's
/// extent, so that none is left out.
pub proof fn a_block_is_what_it_covers(i: int, s: int, source: int, out: int)
    requires
        0 <= i < out,
        0 <= s < source,
    ensures
        (block_start(i, source, out) <= s < block_end(i, source, out)) <==> (s * out < (i + 1)
            * source && (s + 1) * out > i * source),
        0 <= block_start(i, source, out) < block_end(i, source, out) <= source,
        block_start(0, source, out) == 0,
        block_end(out - 1, source, out) == source,
        i + 1 < out ==> block_start(i + 1, source, out) <= block_end(i, source, out),
{
    let (a, b) = (i * source, (i + 1) * source);
    let start = a / out;
    let end = (b + out - 1) / out;
    assert(b == a + source) by (nonlinear_arith)
        requires
            a == i * source,
            b == (i + 1) * source,
    ;
    assert(0 <= a && b <= out * source) by (nonlinear_arith)
        requires
            0 <= i < out,
            0 < source,
            a == i * source,
            b == (i + 1) * source,
    ;
    vstd::arithmetic::div_mod::lemma_fundamental_div_mod(a, out);
    vstd::arithmetic::div_mod::lemma_fundamental_div_mod(b + out - 1, out);
    assert(0 <= start) by (nonlinear_arith)
        requires
            a == out * start + a % out,
            0 <= a % out < out,
            0 <= a,
    ;
    // The end is the quotient rounded up, so it lies past the start and not past the source.
    assert(start + 1 <= end) by (nonlinear_arith)
        requires
            a == out * start + a % out,
            0 <= a % out < out,
            b + out - 1 == out * end + (b + out - 1) % out,
            0 <= (b + out - 1) % out < out,
            a < b,
    ;
    assert(end <= source) by (nonlinear_arith)
        requires
            b + out - 1 == out * end + (b + out - 1) % out,
            0 <= (b + out - 1) % out < out,
            b <= out * source,
            out > 0,
    ;
    assert(block_end(i, source, out) == end);
    assert((s < end) <==> s * out < b) by (nonlinear_arith)
        requires
            b + out - 1 == out * end + (b + out - 1) % out,
            0 <= (b + out - 1) % out < out,
            out > 0,
    ;
    assert((start <= s) <==> (s + 1) * out > a) by (nonlinear_arith)
        requires
            a == out * start + a % out,
            0 <= a % out < out,
            out > 0,
    ;
    assert(0 * source == 0) by (nonlinear_arith);
    vstd::arithmetic::div_mod::lemma_div_basics(out);
    // The last place ends with the source.
    let (la, lb) = ((out - 1) * source, (out - 1 + 1) * source);
    assert(lb == source * out) by (nonlinear_arith)
        requires
            lb == (out - 1 + 1) * source,
    ;
    vstd::arithmetic::div_mod::lemma_fundamental_div_mod_converse(
        lb + out - 1,
        out,
        source,
        out - 1,
    );
    vstd::arithmetic::div_mod::lemma_fundamental_div_mod(la, out);
    assert(la / out < source) by (nonlinear_arith)
        requires
            la == out * (la / out) + la % out,
            0 <= la % out,
            la == (out - 1) * source,
            source > 0,
            out > 0,
    ;
    vstd::arithmetic::div_mod::lemma_fundamental_div_mod(b, out);
    assert(b / out <= end) by (nonlinear_arith)
        requires
            b == out * (b / out) + b % out,
            0 <= b % out < out,
            b + out - 1 == out * end + (b + out - 1) % out,
            0 <= (b + out - 1) % out < out,
            out > 0,
    ;
}

proof fn lemma_row_sum_by_pixel(
    src: Seq<u8>,
    width: int,
    x0: int,
    x1: int,
    y: int,
    c: int,
    at: (int, int),
    v: u8,
)
    requires
        0 <= x0 <= x1 <= width,
        0 <= y,
        (y + 1) * width * 4 <= src.len(),
        0 <= c < 4,
        0 <= at.0 < width,
        0 <= at.1,
        0 <= (at.1 * width + at.0) * 4 + c < src.len(),
    ensures
        row_sum(src.update((at.1 * width + at.0) * 4 + c, v), width, x0, x1, y, c) == row_sum(
            src,
            width,
            x0,
            x1,
            y,
            c,
        ) + if at.1 == y && x0 <= at.0 < x1 {
            v - channel(src, width, at.0, at.1, c)
        } else {
            0
        },
    decreases x1 - x0,
{
    if x0 < x1 {
        let p = (at.1 * width + at.0) * 4 + c;
        lemma_row_sum_by_pixel(src, width, x0, x1 - 1, y, c, at, v);
        let q = (y * width + (x1 - 1)) * 4 + c;
        assert((y + 1) * width == y * width + width && y * width >= 0) by (nonlinear_arith)
            requires
                y >= 0,
                width >= 0,
        ;
        if at != (x1 - 1, y) {
            assert(y * width + (x1 - 1) != at.1 * width + at.0) by (nonlinear_arith)
                requires
                    0 <= x1 - 1 < width,
                    0 <= at.0 < width,
                    x1 - 1 != at.0 || y != at.1,
            ;
            assert(p != q);
        }
        assert(channel(src.update(p, v), width, x1 - 1, y, c) == if p == q {
            v
        } else {
            channel(src, width, x1 - 1, y, c)
        });
    }
}

/// Every pixel of a block counts once in its sum, and no other pixel does: a pixel that
/// becomes brighter by some amount makes the sum larger by that amount.
pub proof fn every_pixel_of_a_block_counts(
    src: Seq<u8>,
    width: int,
    x: (int, int),
    y: (int, int),
    c: int,
    at: (int, int),
    v: u8,
)
    requires
        0 <= x.0 <= x.1 <= width,
        0 <= y.0 <= y.1,
        y.1 * width * 4 <= src.len(),
        0 <= c < 4,
        0 <= at.0 < width,
        0 <= at.1,
        0 <= (at.1 * width + at.0) * 4 + c < src.len(),
    ensures
        block_sum(src.update((at.1 * width + at.0) * 4 + c, v), width, x.0, x.1, y.0, y.1, c)
            == block_sum(src, width, x.0, x.1, y.0, y.1, c) + if x.0 <= at.0 < x.1 && y.0 <= at.1
            < y.1 {
            v - src[(at.1 * width + at.0) * 4 + c]
        } else {
            0
        },
    decreases y.1 - y.0,
{
    if y.0 < y.1 {
        assert((y.1 - 1) * width * 4 == y.1 * width * 4 - width * 4) by (nonlinear_arith);
        every_pixel_of_a_block_counts(src, width, x, (y.0, y.1 - 1), c, at, v);
        lemma_row_sum_by_pixel(src, width, x.0, x.1, y.1 - 1, c, at, v);
    }
}

/// A byte of the shrunk picture is the average over its block, rounded down.
pub proof fn a_shrunk_byte_is_the_average(
    src: Seq<u8>,
    sw: int,
    sh: int,
    dw: int,
    dh: int,
    x: int,
    y: int,
    c: int,
)
    requires
        0 < sw,
        0 < sh,
        0 <= x < dw,
        0 <= y < dh,
        0 <= c < 4,
    ensures
        ({
            let byte = shrunk_byte(src, sw, sh, dw, dh, (y * dw + x) * 4 + c);
            let (x0, x1) = (block_start(x, sw, dw), block_end(x, sw, dw));
            let (y0, y1) = (block_start(y, sh, dh), block_end(y, sh, dh));
            let pixels = (x1 - x0) * (y1 - y0);
            let sum = block_sum(src, sw, x0, x1, y0, y1, c);
            &&& c == 3 ==> byte == 255
            &&& c < 3 ==> byte * pixels <= sum < (byte + 1) * pixels
        }),
{
    let (x0, x1) = (block_start(x, sw, dw), block_end(x, sw, dw));
    let (y0, y1) = (block_start(y, sh, dh), block_end(y, sh, dh));
    let pixels = (x1 - x0) * (y1 - y0);
    let sum = block_sum(src, sw, x0, x1, y0, y1, c);
    a_block_is_what_it_covers(x, 0, sw, dw);
    a_block_is_what_it_covers(y, 0, sh, dh);
    assert(pixels > 0) by (nonlinear_arith)
        requires
            x1 - x0 > 0,
            y1 - y0 > 0,
            pixels == (x1 - x0) * (y1 - y0),
    ;
    let i = (y * dw + x) * 4 + c;
    assert(y * dw >= 0) by (nonlinear_arith)
        requires
            y >= 0,
            dw >= 0,
    ;
    vstd::arithmetic::div_mod::lemma_fundamental_div_mod_converse(y * dw + x, dw, y, x);
    assert(i % 4 == c && i / 4 == y * dw + x);
    vstd::arithmetic::div_mod::lemma_fundamental_div_mod(sum, pixels);
    let byte = sum / pixels;
    assert(pixels * byte == byte * pixels) by (nonlinear_arith);
    assert((byte + 1) * pixels == byte * pixels + pixels) by (nonlinear_arith);
}

/// `v` brought into `0..=255`.
pub open spec fn to_byte_range(v: int) -> int {
    if v < 0 {
        0
    } else if v > 255 {
        255
    } else {
        v
    }
}

/// Full-range BT.601 luma: white is 255 and black is 0.
pub open spec fn luma_of(r: int, g: int, b: int) -> int {
    to_byte_range((77 * r + 150 * g + 29 * b + 128) / 256)
}

/// Full-range BT.601 chroma, blue difference, centred on 128.
pub open spec fn cb_of(r: int, g: int, b: int) -> int {
    to_byte_range(128 + (128 * b - 43 * r - 85 * g + 128) / 256)
}

/// Full-range BT.601 chroma, red difference, centred on 128.
pub open spec fn cr_of(r: int, g: int, b: int) -> int {
    to_byte_range(128 + (128 * r - 107 * g - 21 * b + 128) / 256)
}

/// Full-range BT.601 luma of a colour given as red, green, blue.
pub fn luma(px: (u32, u32, u32)) -> (y: u8)
    requires
        px.0 <= 255,
        px.1 <= 255,
        px.2 <= 255,
    ensures
        y == luma_of(px.0 as int, px.1 as int, px.2 as int),
{
    let v: u32 = (77 * px.0 + 150 * px.1 + 29 * px.2 + 128) / 256;
    if v > 255 {
        255
    } else {
        v as u8
    }
}

fn centred(v: i32) -> (r: u8)
    requires
        -65536 <= v <= 65536,
    ensures
        r == to_byte_range(128 + (v as int) / 256),
{
    let up: i32 = (v + 65536) / 256;
    let c: i32 = up - 128;
    if c < 0 {
        0
    } else if c > 255 {
        255
    } else {
        c as u8
    }
}

/// Full-range BT.601 chroma, returned as `(Cb, Cr)`, centred on 128.
pub fn chroma(r: u32, g: u32, b: u32) -> (c: (u8, u8))
    requires
        r <= 255,
        g <= 255,
        b <= 255,
    ensures
        c.0 == cb_of(r as int, g as int, b as int),
        c.1 == cr_of(r as int, g as int, b as int),
{
    let (ri, gi, bi): (i32, i32, i32) = (r as i32, g as i32, b as i32);
    let cb: i32 = 128 * bi - 43 * ri - 85 * gi + 128;
    let cr: i32 = 128 * ri - 107 * gi - 21 * bi + 128;
    (centred(cb), centred(cr))
}

/// A grey has no colour: its luma is the grey itself and its chroma is the
/// centre, so white stays white and black stays black.
pub proof fn greys_keep_their_value(v: int)
    requires
        0 <= v <= 255,
    ensures
        luma_of(v, v, v) == v,
        cb_of(v, v, v) == 128,
        cr_of(v, v, v) == 128,
{
}

/// Luma and chroma are those of the standard (0.299, 0.587 and 0.114 of red, green and blue;
/// the blue and the red difference scaled to half the range), to within one step.
pub proof fn the_standard_is_met(r: int, g: int, b: int)
    requires
        0 <= r <= 255,
        0 <= g <= 255,
        0 <= b <= 255,
    ensures
        0 <= luma_of(r, g, b) <= 255,
        0 <= cb_of(r, g, b) <= 255,
        0 <= cr_of(r, g, b) <= 255,
        -1000 < 1000 * luma_of(r, g, b) - (299 * r + 587 * g + 114 * b) < 1000,
        -1_000_000 < 1_000_000 * (cb_of(r, g, b) - 128) - (500_000 * b - 168_736 * r - 331_264 * g)
            < 1_000_000,
        -1_000_000 < 1_000_000 * (cr_of(r, g, b) - 128) - (500_000 * r - 418_688 * g - 81_312 * b)
            < 1_000_000,
{
}

/// A pixel's bytes are blue, green, red and opacity, and each chroma sample averages the four
/// pixels that it stands for.
pub proof fn samples_are_of_their_pixels(bgra: Seq<u8>, width: int, x: int, y: int)
    ensures
        luma_at(bgra, width, x, y) == luma_of(
            bgra[(y * width + x) * 4 + 2] as int,
            bgra[(y * width + x) * 4 + 1] as int,
            bgra[(y * width + x) * 4] as int,
        ),
        forall|c: int|
            0 <= c < 3 ==> {
                let sum = block_sum(bgra, width, 2 * x, 2 * x + 2, 2 * y, 2 * y + 2, c);
                4 * #[trigger] quad_average(bgra, width, x, y, c) <= sum < 4 * quad_average(
                    bgra,
                    width,
                    x,
                    y,
                    c,
                ) + 4
            },
        cb_at(bgra, width, x, y) == cb_of(
            quad_average(bgra, width, x, y, 2),
            quad_average(bgra, width, x, y, 1),
            quad_average(bgra, width, x, y, 0),
        ),
        cr_at(bgra, width, x, y) == cr_of(
            quad_average(bgra, width, x, y, 2),
            quad_average(bgra, width, x, y, 1),
            quad_average(bgra, width, x, y, 0),
        ),
{
    assert forall|c: int| 0 <= c < 3 implies {
        let sum = block_sum(bgra, width, 2 * x, 2 * x + 2, 2 * y, 2 * y + 2, c);
        4 * #[trigger] quad_average(bgra, width, x, y, c) <= sum < 4 * quad_average(
            bgra,
            width,
            x,
            y,
            c,
        ) + 4
    } by {
        reveal_with_fuel(block_sum, 3);
        reveal_with_fuel(row_sum, 3);
    }
}

/// The luma of the pixel in column `x` of row `y`.
pub open spec fn luma_at(bgra: Seq<u8>, width: int, x: int, y: int) -> int {
    luma_of(
        channel(bgra, width, x, y, 2) as int,
        channel(bgra, width, x, y, 1) as int,
        channel(bgra, width, x, y, 0) as int,
    )
}

/// The average of a channel over the two by two pixels of chroma sample `(x, y)`.
pub open spec fn quad_average(bgra: Seq<u8>, width: int, x: int, y: int, c: int) -> int {
    (channel(bgra, width, 2 * x, 2 * y, c) + channel(bgra, width, 2 * x + 1, 2 * y, c) + channel(
        bgra,
        width,
        2 * x,
        2 * y + 1,
        c,
    ) + channel(bgra, width, 2 * x + 1, 2 * y + 1, c)) / 4
}

/// The blue-difference sample `(x, y)`.
pub open spec fn cb_at(bgra: Seq<u8>, width: int, x: int, y: int) -> int {
    cb_of(
        quad_average(bgra, width, x, y, 2),
        quad_average(bgra, width, x, y, 1),
        quad_average(bgra, width, x, y, 0),
    )
}

/// The red-difference sample `(x, y)`.
pub open spec fn cr_at(bgra: Seq<u8>, width: int, x: int, y: int) -> int {
    cr_of(
        quad_average(bgra, width, x, y, 2),
        quad_average(bgra, width, x, y, 1),
        quad_average(bgra, width, x, y, 0),
    )
}

/// A 4:2:0 picture: a luma sample for each pixel, a pair of chroma samples for
/// each two by two pixels.
pub struct I420Buffer {
    pub width: usize,
    pub height: usize,
    pub y: Vec<u8>,
    pub u: Vec<u8>,
    pub v: Vec<u8>,
}

impl Default for I420Buffer {
    /// A picture without pixels.
    fn default() -> (r: Self)
        ensures
            r.wf(),
            r.width == 0,
            r.height == 0,
    {
        I420Buffer { width: 0, height: 0, y: Vec::new(), u: Vec::new(), v: Vec::new() }
    }
}

impl I420Buffer {
    /// The planes are as large as the dimensions ask for.
    pub open spec fn wf(&self) -> bool {
        &&& self.width % 2 == 0
        &&& self.height % 2 == 0
        &&& self.y.len() == self.width * self.height
        &&& self.u.len() == (self.width / 2) * (self.height / 2)
        &&& self.v.len() == (self.width / 2) * (self.height / 2)
    }

    /// Whether this is the top left `w` by `h` pixels of a picture that is
    /// `src_w` pixels wide.
    pub open spec fn shows(&self, bgra: Seq<u8>, src_w: int, w: int, h: int) -> bool {
        &&& self.wf()
        &&& self.width == w
        &&& self.height == h
        &&& forall|i: int| 0 <= i < w * h ==> (#[trigger] self.y@[i]) == luma_at(bgra, src_w, i % w, i / w)
        &&& forall|i: int|
            0 <= i < (w / 2) * (h / 2) ==> (#[trigger] self.u@[i]) == cb_at(
                bgra,
                src_w,
                i % (w / 2),
                i / (w / 2),
            )
        &&& forall|i: int|
            0 <= i < (w / 2) * (h / 2) ==> (#[trigger] self.v@[i]) == cr_at(
                bgra,
                src_w,
                i % (w / 2),
                i / (w / 2),
            )
    }

    /// Convert BGRA (`src_w` wide, tightly packed) into I420, cropping to `w` by
    /// `h`, both even.
    pub fn fill_from_bgra(&mut self, src_w: u32, _src_h: u32, w: u32, h: u32, bgra: &[u8])
        requires
            w % 2 == 0,
            h % 2 == 0,
            reaches(bgra@.len() as int, src_w as int, w as int, h as int),
        ensures
            final(self).shows(bgra@, src_w as int, w as int, h as int),
    {
        let sw: usize = src_w as usize;
        let (cw, ch): (usize, usize) = ((w / 2) as usize, (h / 2) as usize);
        self.width = w as usize;
        self.height = h as usize;
        self.y = luma_plane(bgra, sw, w as usize, h as usize);
        let (u, v) = chroma_planes(bgra, sw, cw, ch);
        self.u = u;
        self.v = v;
    }

    /// Columns and rows.
    pub fn dimensions(&self) -> (r: (usize, usize))
        ensures
            r == (self.width, self.height),
    {
        (self.width, self.height)
    }

    /// Bytes per row of each plane.
    pub fn strides(&self) -> (r: (usize, usize, usize))
        ensures
            r == (self.width, (self.width / 2) as usize, (self.width / 2) as usize),
    {
        (self.width, self.width / 2, self.width / 2)
    }
}

/// Whether a picture of `w` by `h` pixels, in rows of `src_w`, lies within `len`
/// bytes.
pub open spec fn reaches(len: int, src_w: int, w: int, h: int) -> bool {
    w > 0 && h > 0 ==> ((h - 1) * src_w + w) * 4 <= len
}

proof fn lemma_reached(len: int, src_w: int, w: int, h: int, x: int, y: int)
    requires
        reaches(len, src_w, w, h),
        0 <= x < w,
        0 <= y < h,
        0 <= src_w,
    ensures
        0 <= y * src_w,
        (y * src_w + x) * 4 + 3 < len,
{
    assert(0 <= y * src_w <= (h - 1) * src_w) by (nonlinear_arith)
        requires
            0 <= y <= h - 1,
            0 <= src_w,
    ;
}

/// The colour of a pixel as red, green, blue.
fn rgb(
    bgra: &[u8],
    sw: usize,
    x: usize,
    y: usize,
    Ghost(w): Ghost<int>,
    Ghost(h): Ghost<int>,
) -> (r: (u32, u32, u32))
    requires
        x < w,
        y < h,
        reaches(bgra@.len() as int, sw as int, w, h),
    ensures
        r.0 == channel(bgra@, sw as int, x as int, y as int, 2),
        r.1 == channel(bgra@, sw as int, x as int, y as int, 1),
        r.2 == channel(bgra@, sw as int, x as int, y as int, 0),
{
    proof {
        assert(bgra@.len() == bgra.len());
        lemma_reached(bgra@.len() as int, sw as int, w, h, x as int, y as int);
    }
    let p: usize = (y * sw + x) * 4;
    (bgra[p + 2] as u32, bgra[p + 1] as u32, bgra[p] as u32)
}

proof fn lemma_index(w: int, x: int, y: int)
    requires
        0 <= x < w,
        0 <= y,
    ensures
        (y * w + x) % w == x,
        (y * w + x) / w == y,
{
    lemma_fundamental_div_mod_converse(y * w + x, w, y, x);
}

proof fn lemma_next_row(w: int, y: int)
    ensures
        (y + 1) * w == y * w + w,
{
    assert((y + 1) * w == y * w + w) by (nonlinear_arith);
}

fn luma_plane(bgra: &[u8], sw: usize, w: usize, h: usize) -> (plane: Vec<u8>)
    requires
        reaches(bgra@.len() as int, sw as int, w as int, h as int),
    ensures
        plane.len() == w * h,
        forall|i: int|
            0 <= i < w * h ==> (#[trigger] plane@[i]) == luma_at(
                bgra@,
                sw as int,
                i % (w as int),
                i / (w as int),
            ),
{
    let mut plane: Vec<u8> = Vec::new();
    let mut y: usize = 0;
    assert(0 * w == 0);
    while y < h
        invariant
            reaches(bgra@.len() as int, sw as int, w as int, h as int),
            y <= h,
            plane.len() == y * w,
            forall|i: int|
                0 <= i < plane.len() ==> (#[trigger] plane@[i]) == luma_at(
                    bgra@,
                    sw as int,
                    i % (w as int),
                    i / (w as int),
                ),
        decreases h - y,
    {
        let mut x: usize = 0;
        while x < w
            invariant
                reaches(bgra@.len() as int, sw as int, w as int, h as int),
                y < h,
                x <= w,
                plane.len() == y * w + x,
                forall|i: int|
                    0 <= i < plane.len() ==> (#[trigger] plane@[i]) == luma_at(
                        bgra@,
                        sw as int,
                        i % (w as int),
                        i / (w as int),
                    ),
            decreases w - x,
        {
            let px = rgb(bgra, sw, x, y, Ghost(w as int), Ghost(h as int));
            proof {
                lemma_index(w as int, x as int, y as int);
            }
            plane.push(luma(px));
            x = x + 1;
        }
        proof {
            lemma_next_row(w as int, y as int);
        }
        y = y + 1;
    }
    assert(h * w == w * h) by (nonlinear_arith);
    plane
}

fn chroma_planes(bgra: &[u8], sw: usize, w: usize, h: usize) -> (planes: (
    Vec<u8>,
    Vec<u8>,
))
    requires
        2 * w <= usize::MAX,
        2 * h <= usize::MAX,
        reaches(bgra@.len() as int, sw as int, 2 * w, 2 * h),
    ensures
        planes.0.len() == w * h,
        planes.1.len() == w * h,
        forall|i: int|
            0 <= i < w * h ==> (#[trigger] planes.0@[i]) == cb_at(
                bgra@,
                sw as int,
                i % (w as int),
                i / (w as int),
            ),
        forall|i: int|
            0 <= i < w * h ==> (#[trigger] planes.1@[i]) == cr_at(
                bgra@,
                sw as int,
                i % (w as int),
                i / (w as int),
            ),
{
    let mut us: Vec<u8> = Vec::new();
    let mut vs: Vec<u8> = Vec::new();
    let mut y: usize = 0;
    assert(0 * w == 0);
    while y < h
        invariant
            2 * w <= usize::MAX,
            2 * h <= usize::MAX,
            reaches(bgra@.len() as int, sw as int, 2 * w, 2 * h),
            y <= h,
            us.len() == y * w,
            vs.len() == y * w,
            forall|i: int|
                0 <= i < us.len() ==> (#[trigger] us@[i]) == cb_at(
                    bgra@,
                    sw as int,
                    i % (w as int),
                    i / (w as int),
                ),
            forall|i: int|
                0 <= i < vs.len() ==> (#[trigger] vs@[i]) == cr_at(
                    bgra@,
                    sw as int,
                    i % (w as int),
                    i / (w as int),
                ),
        decreases h - y,
    {
        let mut x: usize = 0;
        while x < w
            invariant
                2 * w <= usize::MAX,
                2 * h <= usize::MAX,
                reaches(bgra@.len() as int, sw as int, 2 * w, 2 * h),
                y < h,
                x <= w,
                us.len() == y * w + x,
                vs.len() == y * w + x,
                forall|i: int|
                    0 <= i < us.len() ==> (#[trigger] us@[i]) == cb_at(
                        bgra@,
                        sw as int,
                        i % (w as int),
                        i / (w as int),
                    ),
                forall|i: int|
                    0 <= i < vs.len() ==> (#[trigger] vs@[i]) == cr_at(
                        bgra@,
                        sw as int,
                        i % (w as int),
                        i / (w as int),
                    ),
            decreases w - x,
        {
            let a = rgb(bgra, sw, 2 * x, 2 * y, Ghost(2 * w), Ghost(2 * h));
            let b = rgb(bgra, sw, 2 * x + 1, 2 * y, Ghost(2 * w), Ghost(2 * h));
            let c = rgb(bgra, sw, 2 * x, 2 * y + 1, Ghost(2 * w), Ghost(2 * h));
            let d = rgb(bgra, sw, 2 * x + 1, 2 * y + 1, Ghost(2 * w), Ghost(2 * h));
            let (cb, cr) = chroma(
                (a.0 + b.0 + c.0 + d.0) / 4,
                (a.1 + b.1 + c.1 + d.1) / 4,
                (a.2 + b.2 + c.2 + d.2) / 4,
            );
            proof {
                lemma_index(w as int, x as int, y as int);
            }
            us.push(cb);
            vs.push(cr);
            x = x + 1;
        }
        proof {
            lemma_next_row(w as int, y as int);
        }
        y = y + 1;
    }
    assert(h * w == w * h) by (nonlinear_arith);
    (us, vs)
}

} // verus!
