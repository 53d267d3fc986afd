//! Byte-level pixel conversions between the renderers' RGBA buffers and
//! Cairo's ARGB32 layout (premultiplied, little-endian B, G, R, A), and the
//! row flip from GL's bottom-left origin to a top-left one.

use vstd::prelude::*;
use vstd::arithmetic::div_mod::{lemma_fundamental_div_mod, lemma_fundamental_div_mod_converse};

verus! {

/// The bytes of `n` that fall in whole 4-byte pixels.
pub open spec fn whole_pixels_len(n: int) -> int {
    n - n % 4
}

/// Byte `k` of `old` after swapping the first and third byte of every whole
/// pixel (RGBA ↔ BGRA); a trailing partial pixel is left as is.
pub open spec fn swapped_byte(old: Seq<u8>, k: int) -> u8 {
    if k < whole_pixels_len(old.len() as int) && k % 4 == 0 {
        old[k + 2]
    } else if k < whole_pixels_len(old.len() as int) && k % 4 == 2 {
        old[k - 2]
    } else {
        old[k]
    }
}

/// `old` with the first and third byte of every whole pixel swapped.
pub open spec fn red_blue_swapped(old: Seq<u8>) -> Seq<u8> {
    Seq::new(old.len(), |k: int| swapped_byte(old, k))
}

/// Swapping red and blue twice gives the buffer back.
pub proof fn red_blue_swap_is_involution(b: Seq<u8>)
    ensures
        red_blue_swapped(red_blue_swapped(b)) == b,
{
    let once = red_blue_swapped(b);
    let n = b.len() as int;
    assert forall|k: int| 0 <= k < n implies #[trigger] red_blue_swapped(once)[k] == b[k] by {
        let w = whole_pixels_len(n);
        if k < w && k % 4 == 0 {
            assert(k + 2 < w);
            assert((k + 2) % 4 == 2);
        } else if k < w && k % 4 == 2 {
            assert((k - 2) % 4 == 0);
        }
    }
    assert(red_blue_swapped(once) =~= b);
}

/// Swap the red and blue bytes of every whole pixel in place: premultiplied
/// RGBA (tiny-skia's order) to premultiplied little-endian ARGB32 (B, G, R, A),
/// or back.
#[verifier::rlimit(60)]
#[verifier::spinoff_prover]
pub fn swap_red_blue(buf: &mut Vec<u8>)
    ensures
        final(buf)@.len() == old(buf)@.len(),
        forall|k: int| 0 <= k < old(buf)@.len() ==> #[trigger] final(buf)@[k] == swapped_byte(old(buf)@, k),
        final(buf)@ == red_blue_swapped(old(buf)@),
{
    let ghost orig = buf@;
    let n = buf.len();
    let mut i: usize = 0;
    while n - i >= 4
        invariant
            n == buf@.len(),
            orig.len() == n,
            i <= n,
            i % 4 == 0,
            i <= whole_pixels_len(n as int),
            forall|k: int| 0 <= k < i ==> #[trigger] buf@[k] == swapped_byte(orig, k),
            forall|k: int| i <= k < n ==> #[trigger] buf@[k] == orig[k],
        decreases n - i,
    {
        let r = buf[i];
        let b = buf[i + 2];
        buf[i] = b;
        buf[i + 2] = r;
        assert forall|k: int| 0 <= k < i + 4 implies #[trigger] buf@[k] == swapped_byte(orig, k) by {
            if k >= i {
                assert(k % 4 == k - i);
            }
        }
        i += 4;
    }
    assert(i == whole_pixels_len(n as int));
    assert(buf@ =~= red_blue_swapped(orig));
}

/// `c * a / 255`: channel `c` premultiplied by alpha `a`, rounded down.
pub open spec fn premul(c: u8, a: u8) -> u8 {
    (c as int * a as int / 255) as u8
}

/// Byte `k` of `old` after converting every whole straight-alpha RGBA pixel to
/// premultiplied little-endian ARGB32 (B, G, R, A); a trailing partial pixel
/// is left as is.
pub open spec fn argb32_byte(old: Seq<u8>, k: int) -> u8 {
    let base = k - k % 4;
    let a = old[base + 3];
    if k >= whole_pixels_len(old.len() as int) {
        old[k]
    } else if k % 4 == 0 {
        premul(old[base + 2], a)
    } else if k % 4 == 1 {
        premul(old[base + 1], a)
    } else if k % 4 == 2 {
        premul(old[base], a)
    } else {
        a
    }
}

proof fn lemma_premul_fits(c: u8, a: u8)
    ensures
        0 <= c as int * a as int / 255 <= 255,
{
    assert(c as int * a as int <= 255 * 255) by (nonlinear_arith)
        requires
            c <= 255,
            a <= 255,
            c >= 0,
            a >= 0,
    ;
    assert(0 <= c as int * a as int) by (nonlinear_arith)
        requires
            c >= 0,
            a >= 0,
    ;
}

fn premul_exec(c: u8, a: u8) -> (r: u8)
    ensures
        r == premul(c, a),
{
    proof {
        lemma_premul_fits(c, a);
    }
    let p: u32 = c as u32 * a as u32;
    (p / 255) as u8
}

/// Convert straight-alpha RGBA pixels (the GL readback order) in place to
/// premultiplied little-endian ARGB32 (B, G, R, A), the byte layout a Cairo
/// image surface expects.
pub fn rgba_to_argb32_premultiplied(buf: &mut Vec<u8>)
    ensures
        final(buf)@.len() == old(buf)@.len(),
        forall|k: int| 0 <= k < old(buf)@.len() ==> #[trigger] final(buf)@[k] == argb32_byte(old(buf)@, k),
{
    let ghost orig = buf@;
    let n = buf.len();
    let mut i: usize = 0;
    while n - i >= 4
        invariant
            n == buf@.len(),
            orig.len() == n,
            i <= n,
            i % 4 == 0,
            i <= whole_pixels_len(n as int),
            forall|k: int| 0 <= k < i ==> #[trigger] buf@[k] == argb32_byte(orig, k),
            forall|k: int| i <= k < n ==> #[trigger] buf@[k] == orig[k],
        decreases n - i,
    {
        let r = buf[i];
        let g = buf[i + 1];
        let b = buf[i + 2];
        let a = buf[i + 3];
        buf[i] = premul_exec(b, a);
        buf[i + 1] = premul_exec(g, a);
        buf[i + 2] = premul_exec(r, a);
        assert forall|k: int| 0 <= k < i + 4 implies #[trigger] buf@[k] == argb32_byte(orig, k) by {
            if k >= i {
                assert(k % 4 == k - i);
                assert(k - k % 4 == i);
            }
        }
        i += 4;
    }
    assert(i == whole_pixels_len(n as int));
}


/// Byte `k` of a `h`-row image with rows of `s` bytes once the rows in
/// `[0, done)` and `[h - done, h)` have been mirrored; the other rows, and any
/// bytes after the image, are as in `old`.
pub open spec fn partly_flipped(old: Seq<u8>, s: int, h: int, done: int, k: int) -> u8 {
    let row = k / s;
    let col = k % s;
    if k < h * s && (row < done || row >= h - done) {
        old[(h - 1 - row) * s + col]
    } else {
        old[k]
    }
}

proof fn lemma_row_col(k: int, s: int)
    requires
        s > 0,
        k >= 0,
    ensures
        k == (k / s) * s + k % s,
        0 <= k % s < s,
        k / s >= 0,
{
    lemma_fundamental_div_mod(k, s);
    assert((k / s) * s == s * (k / s)) by (nonlinear_arith);
    assert(k / s >= 0) by (nonlinear_arith)
        requires
            s > 0,
            k >= 0,
    ;
}

proof fn lemma_at(r: int, c: int, s: int)
    requires
        s > 0,
        0 <= c < s,
    ensures
        (r * s + c) / s == r,
        (r * s + c) % s == c,
{
    lemma_fundamental_div_mod_converse(r * s + c, s, r, c);
}

proof fn lemma_row_bounds(r: int, c: int, s: int, h: int)
    requires
        s > 0,
        0 <= c < s,
        0 <= r < h,
    ensures
        0 <= r * s + c < h * s,
        r * s + c >= 0,
{
    assert(r * s + c < h * s) by (nonlinear_arith)
        requires
            0 <= c < s,
            r < h,
            r >= 0,
            s > 0,
    ;
    assert(r * s >= 0) by (nonlinear_arith)
        requires
            r >= 0,
            s > 0,
    ;
}

/// `old` with the first `h` rows of `s` bytes in reverse order; the bytes
/// after them as they were.
pub open spec fn rows_flipped(old: Seq<u8>, s: int, h: int) -> Seq<u8> {
    Seq::new(
        old.len(),
        |k: int|
            if s > 0 && k < h * s {
                old[(h - 1 - k / s) * s + k % s]
            } else {
                old[k]
            },
    )
}

proof fn lemma_row_below(k: int, s: int, h: int)
    requires
        s > 0,
        0 <= k < h * s,
    ensures
        k / s < h,
{
    lemma_row_col(k, s);
    let r = k / s;
    let c = k % s;
    assert(r < h) by (nonlinear_arith)
        requires
            k == r * s + c,
            0 <= c,
            k < h * s,
            s > 0,
    ;
}

/// Flipping the rows twice gives the image back.
pub proof fn row_flip_is_involution(b: Seq<u8>, s: int, h: int)
    requires
        0 <= h,
        h * s <= b.len(),
    ensures
        rows_flipped(rows_flipped(b, s, h), s, h) == b,
{
    let once = rows_flipped(b, s, h);
    assert forall|k: int| 0 <= k < b.len() implies #[trigger] rows_flipped(once, s, h)[k] == b[k] by {
        if s > 0 && k < h * s {
            lemma_row_col(k, s);
            lemma_row_below(k, s, h);
            let r = k / s;
            let c = k % s;
            let j = (h - 1 - r) * s + c;
            lemma_row_bounds(h - 1 - r, c, s, h);
            lemma_at(h - 1 - r, c, s);
            assert(once[j] == b[(h - 1 - (h - 1 - r)) * s + c]);
        }
    }
    assert(rows_flipped(once, s, h) =~= b);
}

/// Flip image rows in place (GL's bottom-left origin → top-left for Cairo):
/// row `r` of the `h`-row, `w`-pixel image becomes row `h - 1 - r`. Bytes
/// after the image are untouched.
pub fn flip_rows(buf: &mut [u8], w: usize, h: usize)
    requires
        w * 4 <= usize::MAX,
        h <= 1 || w * 4 * h <= old(buf)@.len(),
    ensures
        final(buf)@.len() == old(buf)@.len(),
        forall|r: int, c: int| 0 <= r < h && 0 <= c < w * 4 ==>
            #[trigger] final(buf)@[r * (w * 4) + c] == old(buf)@[(h - 1 - r) * (w * 4) + c],
        forall|k: int| (w * 4) * h <= k < old(buf)@.len() ==> #[trigger] final(buf)@[k] == old(buf)@[k],
        final(buf)@ == rows_flipped(old(buf)@, w * 4, h as int),
{
    let ghost orig = buf@;
    let stride = w * 4;
    if stride == 0 || h <= 1 {
        proof {
            if stride > 0 {
                assert forall|k: int| 0 <= k < orig.len() && k < (h as int) * (stride as int) implies
                    #[trigger] orig[k] == orig[(h - 1 - k / (stride as int)) * (stride as int) + k % (stride as int)] by {
                    assert(h == 1);
                    assert((h as int) * (stride as int) == stride as int);
                    lemma_at(0, k, stride as int);
                    assert(0 * (stride as int) + k == k);
                }
            }
        }
        assert(buf@ =~= rows_flipped(orig, w * 4, h as int));
        return;
    }
    let ghost s = stride as int;
    let ghost hh = h as int;
    let n = buf.len();
    let mut y: usize = 0;
    proof {
        assert forall|k: int| 0 <= k < n implies #[trigger] buf@[k] == partly_flipped(orig, s, hh, 0, k) by {
            lemma_row_col(k, s);
            if k < hh * s {
                assert(k / s < hh) by (nonlinear_arith)
                    requires
                        k == (k / s) * s + k % s,
                        0 <= k % s,
                        k < hh * s,
                        s > 0,
                ;
            }
        }
    }
    while y < h / 2
        invariant
            n == buf@.len(),
            orig.len() == n,
            s == stride as int,
            hh == h as int,
            s > 0,
            stride * h <= n,
            y <= h / 2,
            forall|k: int| 0 <= k < n ==> #[trigger] buf@[k] == partly_flipped(orig, s, hh, y as int, k),
        decreases h / 2 - y,
    {
        proof {
            assert((y as int) * s + s <= hh * s - (y as int) * s - s + s) by (nonlinear_arith)
                requires
                    2 * (y as int) + 2 <= hh,
                    s > 0,
            ;
            lemma_row_bounds(hh - 1 - y, 0, s, hh);
            assert((hh - 1 - y) * s + s <= hh * s) by (nonlinear_arith)
                requires
                    y >= 0,
                    s > 0,
            ;
        }
        let top = y * stride;
        let bot = (h - 1 - y) * stride;
        assert(top + stride <= bot) by (nonlinear_arith)
            requires
                top == (y as int) * s,
                bot == (hh - 1 - y) * s,
                2 * (y as int) + 2 <= hh,
                s > 0,
                s == stride as int,
        ;
        assert(bot + stride <= stride * h) by (nonlinear_arith)
            requires
                bot == (hh - 1 - y) * s,
                s == stride as int,
                hh == h as int,
                y >= 0,
        ;
        let mut i: usize = 0;
        while i < stride
            invariant
                n == buf@.len(),
                orig.len() == n,
                s == stride as int,
                hh == h as int,
                s > 0,
                top == (y as int) * s,
                bot == (hh - 1 - y) * s,
                top + stride <= bot,
                bot + stride <= n,
                2 * (y as int) + 2 <= hh,
                i <= stride,
                forall|k: int| 0 <= k < n ==> #[trigger] buf@[k] == (
                    if (top <= k < top + i) || (bot <= k < bot + i) {
                        partly_flipped(orig, s, hh, y as int + 1, k)
                    } else {
                        partly_flipped(orig, s, hh, y as int, k)
                    }
                ),
            decreases stride - i,
        {
            let a = buf[top + i];
            let b = buf[bot + i];
            buf[top + i] = b;
            buf[bot + i] = a;
            proof {
                let kt = top + i;
                let kb = bot + i;
                lemma_at(y as int, i as int, s);
                lemma_at(hh - 1 - y, i as int, s);
                lemma_row_bounds(y as int, i as int, s, hh);
                lemma_row_bounds(hh - 1 - y, i as int, s, hh);
                assert(buf@[kt] == partly_flipped(orig, s, hh, y as int + 1, kt));
                assert(buf@[kb] == partly_flipped(orig, s, hh, y as int + 1, kb));
            }
            i += 1;
        }
        proof {
            assert forall|k: int| 0 <= k < n implies #[trigger] buf@[k] == partly_flipped(orig, s, hh, y as int + 1, k) by {
                if !((top <= k < top + stride) || (bot <= k < bot + stride)) {
                    lemma_row_col(k, s);
                    let row = k / s;
                    if row == y as int {
                        assert(k >= top && k < top + stride) by (nonlinear_arith)
                            requires
                                k == row * s + k % s,
                                0 <= k % s < s,
                                row == y as int,
                                top == (y as int) * s,
                                s == stride as int,
                        ;
                    }
                    if row == hh - 1 - y {
                        assert(k >= bot && k < bot + stride) by (nonlinear_arith)
                            requires
                                k == row * s + k % s,
                                0 <= k % s < s,
                                row == hh - 1 - y,
                                bot == (hh - 1 - y) * s,
                                s == stride as int,
                        ;
                    }
                }
            }
        }
        y += 1;
    }
    proof {
        assert(hh * s == (w * 4) * h) by (nonlinear_arith)
            requires
                s == w * 4,
                hh == h,
        ;
        assert forall|r: int, c: int| 0 <= r < h && 0 <= c < w * 4 implies
            #[trigger] buf@[r * (w * 4) + c] == orig[(h - 1 - r) * (w * 4) + c] by {
            assert(w * 4 == s);
            let k = r * s + c;
            lemma_at(r, c, s);
            lemma_row_bounds(r, c, s, hh);
            lemma_row_bounds(hh - 1 - r, c, s, hh);
            assert(buf@[k] == partly_flipped(orig, s, hh, y as int, k));
            if !(r < y || r >= hh - y) {
                assert(r == hh - 1 - r);
            }
        }
        assert forall|k: int| (w * 4) * h <= k < n implies #[trigger] buf@[k] == orig[k] by {
            assert(buf@[k] == partly_flipped(orig, s, hh, y as int, k));
        }
        assert forall|k: int| 0 <= k < n implies #[trigger] buf@[k] == rows_flipped(orig, s, hh)[k] by {
            if k < hh * s {
                lemma_row_col(k, s);
                lemma_row_below(k, s, hh);
                let r = k / s;
                let c = k % s;
                assert(buf@[r * (w * 4) + c] == orig[(h - 1 - r) * (w * 4) + c]);
            }
        }
        assert(buf@ =~= rows_flipped(orig, w * 4, h as int));
    }
}

/// Swapping works pixel by pixel: in every whole 4-byte pixel the first and
/// third bytes trade places and the second and fourth stay; bytes of a
/// trailing partial pixel stay.
pub proof fn red_blue_swap_per_pixel(b: Seq<u8>, j: int, k: int)
    requires
        0 <= j,
        4 * j + 3 < b.len(),
    ensures
        red_blue_swapped(b)[4 * j] == b[4 * j + 2],
        red_blue_swapped(b)[4 * j + 1] == b[4 * j + 1],
        red_blue_swapped(b)[4 * j + 2] == b[4 * j],
        red_blue_swapped(b)[4 * j + 3] == b[4 * j + 3],
        whole_pixels_len(b.len() as int) <= k < b.len() ==> red_blue_swapped(b)[k] == b[k],
{
    let n = b.len() as int;
    assert(4 * j + 3 < whole_pixels_len(n));
    assert((4 * j) % 4 == 0 && (4 * j + 1) % 4 == 1 && (4 * j + 2) % 4 == 2 && (4 * j + 3) % 4 == 3);
}

/// Premultiplying works pixel by pixel: alpha is kept (last byte), each
/// colour is scaled by alpha/255 (rounding down) and lands in BGRA order, so
/// no colour byte exceeds alpha; an opaque pixel only has red and blue
/// swapped, and a fully transparent one becomes all zero.
pub proof fn premultiply_per_pixel(b: Seq<u8>, j: int)
    requires
        0 <= j,
        4 * j + 3 < b.len(),
    ensures
        ({
            let (r, g, bl, a) = (b[4 * j] as int, b[4 * j + 1] as int, b[4 * j + 2] as int, b[4 * j + 3] as int);
            &&& argb32_byte(b, 4 * j + 3) == b[4 * j + 3]
            &&& argb32_byte(b, 4 * j) as int == bl * a / 255
            &&& argb32_byte(b, 4 * j + 1) as int == g * a / 255
            &&& argb32_byte(b, 4 * j + 2) as int == r * a / 255
            &&& argb32_byte(b, 4 * j) as int <= a && argb32_byte(b, 4 * j + 1) as int <= a && argb32_byte(b, 4 * j + 2) as int <= a
            &&& a == 255 ==> argb32_byte(b, 4 * j) == b[4 * j + 2] && argb32_byte(b, 4 * j + 1) == b[4 * j + 1] && argb32_byte(b, 4 * j + 2) == b[4 * j]
            &&& a == 0 ==> argb32_byte(b, 4 * j) == 0 && argb32_byte(b, 4 * j + 1) == 0 && argb32_byte(b, 4 * j + 2) == 0
        }),
{
    let n = b.len() as int;
    assert(4 * j + 3 < whole_pixels_len(n));
    assert((4 * j) % 4 == 0 && (4 * j + 1) % 4 == 1 && (4 * j + 2) % 4 == 2 && (4 * j + 3) % 4 == 3);
    let a = b[4 * j + 3];
    lemma_premul_fits(b[4 * j], a);
    lemma_premul_fits(b[4 * j + 1], a);
    lemma_premul_fits(b[4 * j + 2], a);
    let x = b[4 * j] as int;
    let y = b[4 * j + 1] as int;
    let z = b[4 * j + 2] as int;
    let ai = a as int;
    assert(x * ai / 255 <= ai && y * ai / 255 <= ai && z * ai / 255 <= ai) by (nonlinear_arith)
        requires
            0 <= x <= 255,
            0 <= y <= 255,
            0 <= z <= 255,
            0 <= ai <= 255,
    ;
    assert(ai == 255 ==> x * ai / 255 == x && y * ai / 255 == y && z * ai / 255 == z) by (nonlinear_arith)
        requires
            0 <= x <= 255,
            0 <= y <= 255,
            0 <= z <= 255,
    ;
    assert(ai == 0 ==> x * ai / 255 == 0 && y * ai / 255 == 0 && z * ai / 255 == 0) by (nonlinear_arith);
}

} // verus!
