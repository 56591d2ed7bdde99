use image::Pixel;
use std::collections::HashSet;
use vstd::prelude::*;

use crate::raster::{RgbImage, Texture};
use crate::segment::{channel, one};

verus! {

// ---------------------------------------------------------------------------
// Box blur
// ---------------------------------------------------------------------------
/// Sum of `f(y * w + nx)` for `x0 <= nx < x`.
pub open spec fn row_total(f: spec_fn(int) -> int, w: int, y: int, x0: int, x: int) -> int
    decreases x - x0,
{
    if x <= x0 {
        0
    } else {
        row_total(f, w, y, x0, x - 1) + f(y * w + x - 1)
    }
}

/// Sum of `f` over the pixels of columns `x0..=x1` and rows `y0..y`.
pub open spec fn window_total(f: spec_fn(int) -> int, w: int, x0: int, x1: int, y0: int, y: int) -> int
    decreases y - y0,
{
    if y <= y0 {
        0
    } else {
        window_total(f, w, x0, x1, y0, y - 1) + row_total(f, w, y - 1, x0, x1 + 1)
    }
}

/// First coordinate of a blur window: `v - r`, at least 0.
pub open spec fn window_lo(v: int, r: int) -> int {
    if v >= r {
        v - r
    } else {
        0
    }
}

/// Last coordinate of a blur window: `v + r`, at most `size - 1`.
pub open spec fn window_hi(v: int, r: int, size: int) -> int {
    if v + r <= size - 1 {
        v + r
    } else {
        size - 1
    }
}

/// Channel `c` of pixel `(x, y)` after a box blur of radius `r`: the mean,
/// rounded down, of that channel over the pixels at most `r` rows and `r`
/// columns away (the window is cut at the image border).
pub open spec fn box_mean(img: RgbImage, r: int, c: int, x: int, y: int) -> int {
    let w = img.w() as int;
    let h = img.h() as int;
    let x0 = window_lo(x, r);
    let x1 = window_hi(x, r, w);
    let y0 = window_lo(y, r);
    let y1 = window_hi(y, r, h);
    window_total(channel(img.pix(), c), w, x0, x1, y0, y1 + 1) / window_total(
        one(),
        w,
        x0,
        x1,
        y0,
        y1 + 1,
    )
}

proof fn lemma_index_in_grid(x: int, y: int, w: int, h: int)
    requires
        0 <= x < w,
        0 <= y < h,
    ensures
        0 <= y * w + x < w * h,
        y * w + x + 1 <= w * h,
{
    assert(0 <= y * w + x < w * h) by (nonlinear_arith)
        requires
            0 <= x < w,
            0 <= y < h,
    ;
}

proof fn lemma_row_count(w: int, y: int, x0: int, x: int)
    requires
        x0 <= x,
    ensures
        row_total(one(), w, y, x0, x) == x - x0,
    decreases x - x0,
{
    if x > x0 {
        lemma_row_count(w, y, x0, x - 1);
    }
}

proof fn lemma_window_count(w: int, x0: int, x1: int, y0: int, y: int)
    requires
        x0 <= x1 + 1,
        y0 <= y,
    ensures
        window_total(one(), w, x0, x1, y0, y) == (y - y0) * (x1 + 1 - x0),
    decreases y - y0,
{
    if y > y0 {
        lemma_window_count(w, x0, x1, y0, y - 1);
        lemma_row_count(w, y - 1, x0, x1 + 1);
        assert(window_total(one(), w, x0, x1, y0, y) == window_total(one(), w, x0, x1, y0, y - 1)
            + row_total(one(), w, y - 1, x0, x1 + 1));
        assert((y - 1 - y0) * (x1 + 1 - x0) + (x1 + 1 - x0) == (y - y0) * (x1 + 1 - x0))
            by (nonlinear_arith);
    } else {
        assert((y - y0) * (x1 + 1 - x0) == 0) by (nonlinear_arith)
            requires
                y == y0,
        ;
    }
}

proof fn lemma_row_weighted(pix: Seq<[u8; 3]>, c: int, w: int, y: int, x0: int, x: int)
    requires
        x0 <= x,
    ensures
        0 <= row_total(channel(pix, c), w, y, x0, x) <= 255 * row_total(one(), w, y, x0, x),
    decreases x - x0,
{
    if x > x0 {
        lemma_row_weighted(pix, c, w, y, x0, x - 1);
        let v = channel(pix, c)(y * w + x - 1);
        assert(0 <= v <= 255);
    }
}

proof fn lemma_window_weighted(pix: Seq<[u8; 3]>, c: int, w: int, x0: int, x1: int, y0: int, y: int)
    requires
        x0 <= x1 + 1,
        y0 <= y,
    ensures
        0 <= window_total(channel(pix, c), w, x0, x1, y0, y) <= 255 * window_total(
            one(),
            w,
            x0,
            x1,
            y0,
            y,
        ),
    decreases y - y0,
{
    if y > y0 {
        lemma_window_weighted(pix, c, w, x0, x1, y0, y - 1);
        lemma_row_weighted(pix, c, w, y - 1, x0, x1 + 1);
    }
}

/// Mean of one channel over a window; the result is a channel value.
proof fn lemma_mean_fits(s: int, n: int)
    requires
        0 <= s <= 255 * n,
        n >= 1,
    ensures
        0 <= s / n <= 255,
{
    assert(0 <= s / n <= 255) by (nonlinear_arith)
        requires
            0 <= s <= 255 * n,
            n >= 1,
    ;
}

/// `px` is pixel `(x, y)` of `img` after a box blur of radius `r`.
pub open spec fn blurred_px(img: RgbImage, r: int, x: int, y: int, px: [u8; 3]) -> bool {
    &&& px[0] == box_mean(img, r, 0, x, y)
    &&& px[1] == box_mean(img, r, 1, x, y)
    &&& px[2] == box_mean(img, r, 2, x, y)
}

/// Sums of the three channels and the pixel count over the window
/// `x0..=x1` by `y0..=y1`.
fn window_sums(pix: &Vec<[u8; 3]>, w: usize, h: usize, x0: usize, x1: usize, y0: usize, y1: usize) -> (res: (
    u64,
    u64,
    u64,
    u64,
))
    requires
        pix.len() == w * h,
        w * h <= 0xff_ffff_ffff_ffff,
        x0 <= x1 < w,
        y0 <= y1 < h,
    ensures
        res.0 == window_total(channel(pix@, 0), w as int, x0 as int, x1 as int, y0 as int, y1 + 1),
        res.1 == window_total(channel(pix@, 1), w as int, x0 as int, x1 as int, y0 as int, y1 + 1),
        res.2 == window_total(channel(pix@, 2), w as int, x0 as int, x1 as int, y0 as int, y1 + 1),
        res.3 == window_total(one(), w as int, x0 as int, x1 as int, y0 as int, y1 + 1),
        res.3 >= 1,
{
    let ghost wi = w as int;
    let (mut r, mut g, mut b, mut n) = (0u64, 0u64, 0u64, 0u64);
    let mut ny = y0;
    proof {
        assert((y1 + 1 - y0) * (x1 + 1 - x0) <= h * w) by (nonlinear_arith)
            requires
                x0 <= x1 < w,
                y0 <= y1 < h,
        ;
        assert(h * w == w * h) by (nonlinear_arith);
    }
    while ny <= y1
        invariant
            pix.len() == w * h,
            w * h <= 0xff_ffff_ffff_ffff,
            x0 <= x1 < w,
            y0 <= ny <= y1 + 1,
            y1 < h,
            wi == w,
            (y1 + 1 - y0) * (x1 + 1 - x0) <= w * h,
            r == window_total(channel(pix@, 0), wi, x0 as int, x1 as int, y0 as int, ny as int),
            g == window_total(channel(pix@, 1), wi, x0 as int, x1 as int, y0 as int, ny as int),
            b == window_total(channel(pix@, 2), wi, x0 as int, x1 as int, y0 as int, ny as int),
            n == window_total(one(), wi, x0 as int, x1 as int, y0 as int, ny as int),
        decreases y1 + 1 - ny,
    {
        proof {
            lemma_window_count(wi, x0 as int, x1 as int, y0 as int, ny as int);
            lemma_window_weighted(pix@, 0, wi, x0 as int, x1 as int, y0 as int, ny as int);
            lemma_window_weighted(pix@, 1, wi, x0 as int, x1 as int, y0 as int, ny as int);
            lemma_window_weighted(pix@, 2, wi, x0 as int, x1 as int, y0 as int, ny as int);
            assert((ny - y0) * (x1 + 1 - x0) <= (y1 + 1 - y0) * (x1 + 1 - x0)) by (nonlinear_arith)
                requires
                    ny <= y1 + 1,
                    x0 <= x1,
            ;
        }
        proof {
            assert((ny - y0) * (x1 + 1 - x0) + (x1 + 1 - x0) <= (y1 + 1 - y0) * (x1 + 1 - x0))
                by (nonlinear_arith)
                requires
                    ny <= y1,
                    x0 <= x1,
            ;
        }
        let ghost r_row = r;
        let ghost g_row = g;
        let ghost b_row = b;
        let ghost n_row = n;
        let mut nx = x0;
        while nx <= x1
            invariant
                pix.len() == w * h,
                w * h <= 0xff_ffff_ffff_ffff,
                x0 <= nx <= x1 + 1,
                x1 < w,
                y0 <= ny <= y1,
                y1 < h,
                wi == w,
                n_row == (ny - y0) * (x1 + 1 - x0),
                (ny - y0) * (x1 + 1 - x0) + (x1 + 1 - x0) <= w * h,
                r_row <= 255 * n_row,
                g_row <= 255 * n_row,
                b_row <= 255 * n_row,
                r == r_row + row_total(channel(pix@, 0), wi, ny as int, x0 as int, nx as int),
                g == g_row + row_total(channel(pix@, 1), wi, ny as int, x0 as int, nx as int),
                b == b_row + row_total(channel(pix@, 2), wi, ny as int, x0 as int, nx as int),
                n == n_row + row_total(one(), wi, ny as int, x0 as int, nx as int),
            decreases x1 + 1 - nx,
        {
            proof {
                lemma_index_in_grid(nx as int, ny as int, wi, h as int);
                lemma_row_count(wi, ny as int, x0 as int, nx as int);
                lemma_row_weighted(pix@, 0, wi, ny as int, x0 as int, nx as int);
                lemma_row_weighted(pix@, 1, wi, ny as int, x0 as int, nx as int);
                lemma_row_weighted(pix@, 2, wi, ny as int, x0 as int, nx as int);
            }
            let c = pix[ny * w + nx];
            r = r + c[0] as u64;
            g = g + c[1] as u64;
            b = b + c[2] as u64;
            n = n + 1;
            nx = nx + 1;
        }
        proof {
            lemma_row_count(wi, ny as int, x0 as int, x1 + 1);
        }
        ny = ny + 1;
    }
    proof {
        lemma_window_count(wi, x0 as int, x1 as int, y0 as int, y1 + 1);
        assert((y1 + 1 - y0) * (x1 + 1 - x0) >= 1) by (nonlinear_arith)
            requires
                x0 <= x1,
                y0 <= y1,
        ;
    }
    (r, g, b, n)
}

/// Replaces every pixel by the mean of the square window of radius `radius`
/// around it (cut at the border), each channel rounded down; radius 0 leaves
/// the image as it is.
pub fn box_blur(img: &RgbImage, radius: u32) -> (out: RgbImage)
    requires
        img.w() * img.h() <= 0xff_ffff_ffff_ffff,
        radius == 0 || img.w() == 0 || img.h() == 0 || (img.w() - 1 + radius <= u32::MAX
            && img.h() - 1 + radius <= u32::MAX),
    ensures
        out.w() == img.w(),
        out.h() == img.h(),
        out.pix().len() == img.pix().len(),
        forall|x: int, y: int|
            0 <= x < img.w() && 0 <= y < img.h() ==> blurred_px(
                *img,
                radius as int,
                x,
                y,
                #[trigger] out.pix()[y * img.w() + x],
            ),
{
    let w = img.width() as usize;
    let h = img.height() as usize;
    let r = radius as usize;
    let pix = img.pixels();
    let ghost wi = w as int;
    let ghost hi = h as int;
    let mut out: Vec<[u8; 3]> = Vec::new();
    assert(0 * w == 0) by (nonlinear_arith);
    for y in 0..h
        invariant
            pix@ == img.pix(),
            pix.len() == w * h,
            w * h <= 0xff_ffff_ffff_ffff,
            w == img.w(),
            h == img.h(),
            wi == w && hi == h,
            r == radius,
            out@.len() == y * w,
            forall|xx: int, yy: int|
                0 <= xx < w && 0 <= yy < y ==> blurred_px(
                    *img,
                    r as int,
                    xx,
                    yy,
                    #[trigger] out@[yy * wi + xx],
                ),
    {
        assert(out@.len() == y * w + 0);
        for x in 0..w
            invariant
                pix@ == img.pix(),
                pix.len() == w * h,
                w * h <= 0xff_ffff_ffff_ffff,
                w == img.w(),
                h == img.h(),
                wi == w && hi == h,
                r == radius,
                y < h,
                out@.len() == y * w + x,
                forall|xx: int, yy: int|
                    0 <= xx < w && 0 <= yy < y ==> blurred_px(
                        *img,
                        r as int,
                        xx,
                        yy,
                        #[trigger] out@[yy * wi + xx],
                    ),
                forall|xx: int|
                    0 <= xx < x ==> blurred_px(*img, r as int, xx, y as int, #[trigger] out@[y * wi + xx]),
        {
            let x0 = if x >= r {
                x - r
            } else {
                0
            };
            let x1 = if r >= (w - 1) - x {
                w - 1
            } else {
                x + r
            };
            let y0 = if y >= r {
                y - r
            } else {
                0
            };
            let y1 = if r >= (h - 1) - y {
                h - 1
            } else {
                y + r
            };
            let (rs, gs, bs, n) = window_sums(pix, w, h, x0, x1, y0, y1);
            proof {
                lemma_window_weighted(pix@, 0, wi, x0 as int, x1 as int, y0 as int, y1 + 1);
                lemma_window_weighted(pix@, 1, wi, x0 as int, x1 as int, y0 as int, y1 + 1);
                lemma_window_weighted(pix@, 2, wi, x0 as int, x1 as int, y0 as int, y1 + 1);
                lemma_mean_fits(rs as int, n as int);
                lemma_mean_fits(gs as int, n as int);
                lemma_mean_fits(bs as int, n as int);
            }
            let ghost before = out@;
            out.push([(rs / n) as u8, (gs / n) as u8, (bs / n) as u8]);
            proof {
                assert(y * wi + x + 1 == y * wi + (x + 1));
                assert forall|xx: int, yy: int|
                    0 <= xx < w && 0 <= yy < y implies blurred_px(
                    *img,
                    r as int,
                    xx,
                    yy,
                    #[trigger] out@[yy * wi + xx],
                ) by {
                    lemma_index_in_grid(xx, yy, wi, y as int);
                    assert(wi * y == y * wi) by (nonlinear_arith);
                    assert(out@[yy * wi + xx] == before[yy * wi + xx]);
                }
                assert forall|xx: int|
                    0 <= xx < x + 1 implies blurred_px(
                    *img,
                    r as int,
                    xx,
                    y as int,
                    #[trigger] out@[y * wi + xx],
                ) by {
                    if xx < x {
                        assert(out@[y * wi + xx] == before[y * wi + xx]);
                    }
                }
            }
        }
        proof {
            assert(y * wi + wi == (y + 1) * wi) by (nonlinear_arith);
        }
    }
    proof {
        assert(h * wi == wi * hi) by (nonlinear_arith)
            requires
                hi == h,
        ;
    }
    let res = RgbImage::from_raw(img.width(), img.height(), out);
    res.unwrap()
}


// ---------------------------------------------------------------------------
// Sobel edges
// ---------------------------------------------------------------------------
/// Luma of an 8-bit RGB colour (Rec. 709 weights, rounded down).
pub open spec fn luma_of(c: [u8; 3]) -> int {
    (2126 * c[0] + 7152 * c[1] + 722 * c[2]) / 10000
}

/// Luma of an RGB pixel, as the `image` crate converts it.
///
/// Calls `image::Pixel::to_luma` on `image::Rgb<u8>`; its source computes
/// `(2126 * r + 7152 * g + 722 * b) / 10000` in `u32` and narrows the result
/// to `u8`, which is what the contract states.
#[verifier::external_body]
fn luma(c: [u8; 3]) -> (l: u8)
    ensures
        l == luma_of(c),
{
    image::Rgb(c).to_luma().0[0]
}

/// Luma of pixel `(x, y)`.
pub open spec fn gray_at(img: RgbImage, x: int, y: int) -> int {
    luma_of(img.pix()[y * img.w() + x])
}

/// Horizontal Sobel response at `(x, y)`.
pub open spec fn sobel_x(img: RgbImage, x: int, y: int) -> int {
    -gray_at(img, x - 1, y - 1) - 2 * gray_at(img, x - 1, y) - gray_at(img, x - 1, y + 1)
        + gray_at(img, x + 1, y - 1) + 2 * gray_at(img, x + 1, y) + gray_at(img, x + 1, y + 1)
}

/// Vertical Sobel response at `(x, y)`.
pub open spec fn sobel_y(img: RgbImage, x: int, y: int) -> int {
    -gray_at(img, x - 1, y - 1) - 2 * gray_at(img, x, y - 1) - gray_at(img, x + 1, y - 1)
        + gray_at(img, x - 1, y + 1) + 2 * gray_at(img, x, y + 1) + gray_at(img, x + 1, y + 1)
}

/// `a` is the gradient length `sqrt(n)` rounded down, capped at 255.
pub open spec fn is_edge_alpha(n: int, a: int) -> bool {
    &&& 0 <= a <= 255
    &&& a * a <= n
    &&& (a == 255 || n < (a + 1) * (a + 1))
}

/// The length of the gradient `(gx, gy)`, rounded down and capped at 255.
pub fn edge_magnitude(gx: i32, gy: i32) -> (a: u8)
    requires
        -2000 <= gx <= 2000,
        -2000 <= gy <= 2000,
    ensures
        is_edge_alpha(gx * gx + gy * gy, a as int),
{
    assert(0 <= gx * gx <= 4_000_000 && 0 <= gy * gy <= 4_000_000) by (nonlinear_arith)
        requires
            -2000 <= gx <= 2000,
            -2000 <= gy <= 2000,
    ;
    let n: u32 = (gx * gx + gy * gy) as u32;
    let mut lo: u32 = 0;
    let mut hi: u32 = 256;
    while lo + 1 < hi
        invariant
            lo < hi <= 256,
            lo * lo <= n,
            hi == 256 || n < hi * hi,
        decreases hi - lo,
    {
        let mid = lo + (hi - lo) / 2;
        assert(mid * mid <= 65536) by (nonlinear_arith)
            requires
                mid < 256,
        ;
        if mid * mid <= n {
            lo = mid;
        } else {
            hi = mid;
        }
    }
    lo as u8
}

/// `px` is pixel `(x, y)` of the edge overlay of `img`: interior pixels are
/// orange `(255, 100, 0)` with opacity equal to the Sobel gradient length of
/// the luma (rounded down, at most 255); border pixels are fully transparent.
pub open spec fn edge_px(img: RgbImage, x: int, y: int, px: [u8; 4]) -> bool {
    if 0 < x < img.w() - 1 && 0 < y < img.h() - 1 {
        &&& px[0] == 255
        &&& px[1] == 100
        &&& px[2] == 0
        &&& is_edge_alpha(
            sobel_x(img, x, y) * sobel_x(img, x, y) + sobel_y(img, x, y) * sobel_y(img, x, y),
            px[3] as int,
        )
    } else {
        px == [0u8, 0u8, 0u8, 0u8]
    }
}

/// Pixel `(x, y)` comes before `(cx, cy)` in row-major order.
spec fn before_pos(x: int, y: int, cx: int, cy: int) -> bool {
    y < cy || (y == cy && x < cx)
}

/// Sobel edge overlay of the image (see [`edge_px`]).
#[verifier::spinoff_prover]
#[verifier::rlimit(40)]
pub fn sobel_texture(img: &RgbImage) -> (t: Texture)
    requires
        img.h() >= 1,
        img.h() < 3 || img.w() >= 1,
    ensures
        t.width == img.w(),
        t.height == img.h(),
        t.pixels@.len() == img.pix().len(),
        forall|x: int, y: int|
            0 <= x < img.w() && 0 <= y < img.h() ==> edge_px(
                *img,
                x,
                y,
                #[trigger] t.pixels@[y * img.w() + x],
            ),
{
    let w = img.width() as usize;
    let h = img.height() as usize;
    let pix = img.pixels();
    let n = pix.len();
    let ghost wi = w as int;
    let ghost hi = h as int;
    let mut gray: Vec<u8> = Vec::new();
    for p in 0..n
        invariant
            pix@ == img.pix(),
            n == pix.len(),
            gray@.len() == p,
            forall|q: int| 0 <= q < p ==> #[trigger] gray@[q] as int == luma_of(pix@[q]),
    {
        gray.push(luma(pix[p]));
    }
    let mut out: Vec<[u8; 4]> = Vec::new();
    for p in 0..n
        invariant
            out@.len() == p,
            forall|q: int| 0 <= q < p ==> #[trigger] out@[q] == [0u8, 0u8, 0u8, 0u8],
    {
        out.push([0, 0, 0, 0]);
    }
    proof {
        assert forall|xx: int, yy: int| 0 <= xx < w && 0 <= yy < h implies if before_pos(
            xx,
            yy,
            1,
            1,
        ) {
            edge_px(*img, xx, yy, #[trigger] out@[yy * wi + xx])
        } else {
            out@[yy * wi + xx] == [0u8, 0u8, 0u8, 0u8]
        } by {
            lemma_index_in_grid(xx, yy, wi, hi);
        }
    }
    let mut y: usize = 1;
    while y < h - 1
        invariant
            1 <= y <= h,
            pix@ == img.pix(),
            n == pix.len(),
            n == w * h,
            w == img.w(),
            h == img.h(),
            wi == w && hi == h,
            h < 3 || w >= 1,
            gray@.len() == n,
            forall|q: int| 0 <= q < n ==> #[trigger] gray@[q] as int == luma_of(pix@[q]),
            out@.len() == n,
            forall|xx: int, yy: int|
                0 <= xx < w && 0 <= yy < h ==> if before_pos(xx, yy, 1, y as int) {
                    edge_px(*img, xx, yy, #[trigger] out@[yy * wi + xx])
                } else {
                    out@[yy * wi + xx] == [0u8, 0u8, 0u8, 0u8]
                },
        decreases h - y,
    {
        let mut x: usize = 1;
        while x < w - 1
            invariant
                1 <= x <= w,
                1 <= y,
                y + 1 < h,
                pix@ == img.pix(),
                n == pix.len(),
                n == w * h,
                w == img.w(),
                h == img.h(),
                wi == w && hi == h,
                gray@.len() == n,
                forall|q: int| 0 <= q < n ==> #[trigger] gray@[q] as int == luma_of(pix@[q]),
                out@.len() == n,
                forall|xx: int, yy: int|
                    0 <= xx < w && 0 <= yy < h ==> if before_pos(xx, yy, x as int, y as int) {
                        edge_px(*img, xx, yy, #[trigger] out@[yy * wi + xx])
                    } else {
                        out@[yy * wi + xx] == [0u8, 0u8, 0u8, 0u8]
                    },
            decreases w - x,
        {
            proof {
                lemma_index_in_grid(x as int + 1, y as int + 1, wi, hi);
                lemma_index_in_grid(x as int - 1, y as int - 1, wi, hi);
                assert((y - 1) * wi == y * wi - wi) by (nonlinear_arith);
                assert((y + 1) * wi == y * wi + wi) by (nonlinear_arith);
            }
            let up = (y - 1) * w;
            let mid = y * w;
            let down = (y + 1) * w;
            let a = gray[up + x - 1] as i32;
            let b = gray[up + x] as i32;
            let c = gray[up + x + 1] as i32;
            let d = gray[mid + x - 1] as i32;
            let f = gray[mid + x + 1] as i32;
            let g = gray[down + x - 1] as i32;
            let k = gray[down + x] as i32;
            let m = gray[down + x + 1] as i32;
            let gx = -a - 2 * d - g + c + 2 * f + m;
            let gy = -a - 2 * b - c + g + 2 * k + m;
            proof {
                let xi = x as int;
                let yi = y as int;
                assert(gx == sobel_x(*img, xi, yi));
                assert(gy == sobel_y(*img, xi, yi));
            }
            let mag = edge_magnitude(gx, gy);
            let ghost before = out@;
            out.set(mid + x, [255, 100, 0, mag]);
            proof {
                assert forall|xx: int, yy: int| 0 <= xx < w && 0 <= yy < h implies if before_pos(
                    xx,
                    yy,
                    x + 1,
                    y as int,
                ) {
                    edge_px(*img, xx, yy, #[trigger] out@[yy * wi + xx])
                } else {
                    out@[yy * wi + xx] == [0u8, 0u8, 0u8, 0u8]
                } by {
                    lemma_index_in_grid(xx, yy, wi, hi);
                    if yy * wi + xx == y * wi + x {
                        lemma_same_index(xx, yy, x as int, y as int, wi);
                    } else {
                        assert(out@[yy * wi + xx] == before[yy * wi + xx]);
                    }
                }
            }
            x = x + 1;
        }
        proof {
            assert forall|xx: int, yy: int| 0 <= xx < w && 0 <= yy < h implies if before_pos(
                xx,
                yy,
                1,
                y + 1,
            ) {
                edge_px(*img, xx, yy, #[trigger] out@[yy * wi + xx])
            } else {
                out@[yy * wi + xx] == [0u8, 0u8, 0u8, 0u8]
            } by {
                lemma_index_in_grid(xx, yy, wi, hi);
                if before_pos(xx, yy, 1, y + 1) && !before_pos(xx, yy, x as int, y as int) {
                    assert(out@[yy * wi + xx] == [0u8, 0u8, 0u8, 0u8]);
                }
            }
        }
        y = y + 1;
    }
    proof {
        assert forall|xx: int, yy: int| 0 <= xx < w && 0 <= yy < h implies edge_px(
            *img,
            xx,
            yy,
            #[trigger] out@[yy * wi + xx],
        ) by {
            lemma_index_in_grid(xx, yy, wi, hi);
            if !before_pos(xx, yy, 1, y as int) {
                assert(out@[yy * wi + xx] == [0u8, 0u8, 0u8, 0u8]);
            }
        }
    }
    Texture { width: w, height: h, pixels: out }
}

proof fn lemma_same_index(x1: int, y1: int, x2: int, y2: int, w: int)
    requires
        0 <= x1 < w,
        0 <= x2 < w,
        0 <= y1,
        0 <= y2,
        y1 * w + x1 == y2 * w + x2,
    ensures
        x1 == x2,
        y1 == y2,
{
    assert(y1 == y2) by (nonlinear_arith)
        requires
            0 <= x1 < w,
            0 <= x2 < w,
            0 <= y1,
            0 <= y2,
            y1 * w + x1 == y2 * w + x2,
    ;
}


// ---------------------------------------------------------------------------
// Segmentation overlay
// ---------------------------------------------------------------------------
/// Display colour of a pixel with label `l`: dark grey for unlabelled pixels
/// (or labels out of range), the region's palette colour otherwise, dimmed to
/// a sixth when some regions are selected and this one is not.
pub open spec fn seg_color(l: i32, n: int, palette: Seq<[u8; 3]>, selected: Set<usize>) -> [u8; 4] {
    if l < 0 || l >= n {
        [20u8, 20u8, 20u8, 255u8]
    } else {
        let c = palette[l as int];
        if !selected.is_empty() && !selected.contains(l as usize) {
            [c[0] / 6, c[1] / 6, c[2] / 6, 255u8]
        } else {
            [c[0], c[1], c[2], 255u8]
        }
    }
}

/// Colours a label map for display: region `i` gets `palette[i]` (see
/// [`seg_color`]).
pub fn build_seg_texture(
    labels: &[i32],
    w: u32,
    h: u32,
    n: usize,
    palette: &[[u8; 3]],
    selected: &HashSet<usize>,
) -> (t: Texture)
    requires
        palette@.len() == n,
    ensures
        t.width == w,
        t.height == h,
        t.pixels@.len() == labels@.len(),
        forall|p: int|
            0 <= p < labels@.len() ==> #[trigger] t.pixels@[p] == seg_color(
                labels@[p],
                n as int,
                palette@,
                selected@,
            ),
{
    broadcast use vstd::std_specs::hash::group_hash_axioms;

    let has_sel = !selected.is_empty();
    let mut out: Vec<[u8; 4]> = Vec::new();
    for p in 0..labels.len()
        invariant
            palette@.len() == n,
            has_sel == !selected@.is_empty(),
            out@.len() == p,
            forall|q: int|
                0 <= q < p ==> #[trigger] out@[q] == seg_color(
                    labels@[q],
                    n as int,
                    palette@,
                    selected@,
                ),
    {
        let l = labels[p];
        if l < 0 || l as usize >= n {
            out.push([20, 20, 20, 255]);
        } else {
            let idx = l as usize;
            let c = palette[idx];
            if has_sel && !selected.contains(&idx) {
                out.push([c[0] / 6, c[1] / 6, c[2] / 6, 255]);
            } else {
                out.push([c[0], c[1], c[2], 255]);
            }
        }
    }
    Texture { width: w as usize, height: h as usize, pixels: out }
}


/// The blur window is the square of pixels at most `r` columns and at most
/// `r` rows away from `(x, y)`, cut at the image border: a channel of the
/// blurred pixel is the sum of that channel over the square divided by the
/// number of pixels in it.
pub proof fn lemma_blur_window_square(img: RgbImage, r: int, c: int, x: int, y: int)
    requires
        0 <= r,
        0 <= x < img.w(),
        0 <= y < img.h(),
    ensures
        ({
            let w = img.w() as int;
            let h = img.h() as int;
            let left = if x - r > 0 { x - r } else { 0 };
            let right = if x + r < w - 1 { x + r } else { w - 1 };
            let top = if y - r > 0 { y - r } else { 0 };
            let bottom = if y + r < h - 1 { y + r } else { h - 1 };
            box_mean(img, r, c, x, y) == window_total(channel(img.pix(), c), w, left, right, top, bottom + 1)
                / ((right - left + 1) * (bottom - top + 1))
        }),
{
    let w = img.w() as int;
    let h = img.h() as int;
    let (lo_x, hi_x) = (window_lo(x, r), window_hi(x, r, w));
    let (lo_y, hi_y) = (window_lo(y, r), window_hi(y, r, h));
    lemma_window_count(w, lo_x, hi_x, lo_y, hi_y + 1);
    assert((hi_y + 1 - lo_y) * (hi_x + 1 - lo_x) == (hi_x - lo_x + 1) * (hi_y - lo_y + 1))
        by (nonlinear_arith);
}

/// A radius that reaches every border blurs every pixel to the mean of the
/// whole image.
pub proof fn lemma_blur_whole_image(img: RgbImage, r: int, c: int, x: int, y: int)
    requires
        0 <= x < img.w(),
        0 <= y < img.h(),
        r >= img.w() - 1,
        r >= img.h() - 1,
    ensures
        box_mean(img, r, c, x, y) == window_total(
            channel(img.pix(), c),
            img.w() as int,
            0,
            img.w() - 1,
            0,
            img.h() as int,
        ) / (img.w() * img.h()) as int,
{
    let w = img.w() as int;
    let h = img.h() as int;
    lemma_window_count(w, 0, w - 1, 0, h);
    assert(h * (w - 1 + 1 - 0) == w * h) by (nonlinear_arith);
}

/// Weight of the horizontal Sobel kernel at offset `(i, j)`.
pub open spec fn kernel_x(i: int, j: int) -> int {
    i * (if j == 0 { 2int } else { 1int })
}

/// Weight of the vertical Sobel kernel at offset `(i, j)`.
pub open spec fn kernel_y(i: int, j: int) -> int {
    j * (if i == 0 { 2int } else { 1int })
}

proof fn lemma_small_multiple(k: int, v: int)
    ensures
        k == -2 ==> k * v == -2 * v,
        k == -1 ==> k * v == -v,
        k == 0 ==> k * v == 0,
        k == 1 ==> k * v == v,
        k == 2 ==> k * v == 2 * v,
{
    assert(k == -2 ==> k * v == -2 * v) by (nonlinear_arith);
    assert(k == -1 ==> k * v == -v) by (nonlinear_arith);
    assert(k == 0 ==> k * v == 0) by (nonlinear_arith);
    assert(k == 1 ==> k * v == v) by (nonlinear_arith);
    assert(k == 2 ==> k * v == 2 * v) by (nonlinear_arith);
}

/// The Sobel responses weigh each neighbour of `(x, y)` by the 3-by-3
/// kernels: when the luma around `(x, y)` is 0 except `v` at offset
/// `(i, j)`, the horizontal response is `kernel_x(i, j) * v` and the
/// vertical one `kernel_y(i, j) * v` (the right column and the row below
/// count positively, the centre row and column twice).
pub proof fn lemma_sobel_impulse(img: RgbImage, x: int, y: int, i: int, j: int, v: int)
    requires
        -1 <= i <= 1,
        -1 <= j <= 1,
        forall|a: int, b: int|
            -1 <= a <= 1 && -1 <= b <= 1 ==> #[trigger] gray_at(img, x + a, y + b) == if a == i
                && b == j {
                v
            } else {
                0
            },
    ensures
        sobel_x(img, x, y) == kernel_x(i, j) * v,
        sobel_y(img, x, y) == kernel_y(i, j) * v,
{
    let (xl, xr, yu, yd) = (x - 1, x + 1, y - 1, y + 1);
    assert(gray_at(img, x + -1, y + -1) == gray_at(img, xl, yu));
    assert(gray_at(img, x + -1, y + 0) == gray_at(img, xl, y));
    assert(gray_at(img, x + -1, y + 1) == gray_at(img, xl, yd));
    assert(gray_at(img, x + 0, y + -1) == gray_at(img, x, yu));
    assert(gray_at(img, x + 0, y + 1) == gray_at(img, x, yd));
    assert(gray_at(img, x + 1, y + -1) == gray_at(img, xr, yu));
    assert(gray_at(img, x + 1, y + 0) == gray_at(img, xr, y));
    assert(gray_at(img, x + 1, y + 1) == gray_at(img, xr, yd));
    lemma_small_multiple(kernel_x(i, j), v);
    lemma_small_multiple(kernel_y(i, j), v);
    if i == -1 {
        if j == -1 {
        } else if j == 0 {
        } else {
        }
    } else if i == 0 {
        if j == -1 {
        } else if j == 0 {
        } else {
        }
    } else {
        if j == -1 {
        } else if j == 0 {
        } else {
        }
    }
}

/// A horizontal edge: when the row above `(x, y)` has luma `top`, its own
/// row `mid` and the row below `bottom` (over columns `x - 1 ..= x + 1`),
/// the horizontal response is 0 and the vertical one `4 * (bottom - top)`.
pub proof fn lemma_sobel_horizontal_edge(img: RgbImage, x: int, y: int, top: int, mid: int, bottom: int)
    requires
        forall|a: int| -1 <= a <= 1 ==> #[trigger] gray_at(img, x + a, y - 1) == top,
        forall|a: int| -1 <= a <= 1 ==> #[trigger] gray_at(img, x + a, y) == mid,
        forall|a: int| -1 <= a <= 1 ==> #[trigger] gray_at(img, x + a, y + 1) == bottom,
    ensures
        sobel_x(img, x, y) == 0,
        sobel_y(img, x, y) == 4 * (bottom - top),
{
    assert(gray_at(img, x + -1, y - 1) == gray_at(img, x - 1, y - 1));
    assert(gray_at(img, x + 0, y - 1) == gray_at(img, x, y - 1));
    assert(gray_at(img, x + -1, y) == gray_at(img, x - 1, y));
    assert(gray_at(img, x + 0, y) == gray_at(img, x, y));
    assert(gray_at(img, x + -1, y + 1) == gray_at(img, x - 1, y + 1));
    assert(gray_at(img, x + 0, y + 1) == gray_at(img, x, y + 1));
    assert(gray_at(img, x + 1, y - 1) == top);
    assert(gray_at(img, x + 1, y) == mid);
    assert(gray_at(img, x + 1, y + 1) == bottom);
}

/// A vertical edge: when the column left of `(x, y)` has luma `left`, its
/// own column `mid` and the column to the right `right` (over rows
/// `y - 1 ..= y + 1`), the horizontal response is `4 * (right - left)` and
/// the vertical one 0.
pub proof fn lemma_sobel_vertical_edge(img: RgbImage, x: int, y: int, left: int, mid: int, right: int)
    requires
        forall|b: int| -1 <= b <= 1 ==> #[trigger] gray_at(img, x - 1, y + b) == left,
        forall|b: int| -1 <= b <= 1 ==> #[trigger] gray_at(img, x, y + b) == mid,
        forall|b: int| -1 <= b <= 1 ==> #[trigger] gray_at(img, x + 1, y + b) == right,
    ensures
        sobel_x(img, x, y) == 4 * (right - left),
        sobel_y(img, x, y) == 0,
{
    assert(gray_at(img, x - 1, y + -1) == gray_at(img, x - 1, y - 1));
    assert(gray_at(img, x - 1, y + 0) == gray_at(img, x - 1, y));
    assert(gray_at(img, x, y + -1) == gray_at(img, x, y - 1));
    assert(gray_at(img, x, y + 0) == gray_at(img, x, y));
    assert(gray_at(img, x + 1, y + -1) == gray_at(img, x + 1, y - 1));
    assert(gray_at(img, x + 1, y + 0) == gray_at(img, x + 1, y));
    assert(gray_at(img, x - 1, y + 1) == left);
    assert(gray_at(img, x, y + 1) == mid);
    assert(gray_at(img, x + 1, y + 1) == right);
}

/// A blur of radius 0 leaves every pixel as it is.
#[verifier::spinoff_prover]
pub proof fn lemma_blur_radius_zero(img: RgbImage, x: int, y: int)
    requires
        0 <= x < img.w(),
        0 <= y < img.h(),
    ensures
        forall|c: int|
            0 <= c < 3 ==> #[trigger] box_mean(img, 0, c, x, y) == img.pix()[y * img.w() + x][c],
{
    let w = img.w() as int;
    assert forall|c: int| 0 <= c < 3 implies #[trigger] box_mean(img, 0, c, x, y) == img.pix()[y
        * img.w() + x][c] by {
        let f = channel(img.pix(), c);
        assert(row_total(f, w, y, x, x) == 0);
        assert(row_total(f, w, y, x, x + 1) == f(y * w + x));
        assert(window_total(f, w, x, x, y, y) == 0);
        assert(row_total(one(), w, y, x, x) == 0);
        assert(window_total(one(), w, x, x, y, y) == 0);
        assert(window_total(f, w, x, x, y, y + 1) == f(y * w + x));
        assert(row_total(one(), w, y, x, x + 1) == 1);
        assert(window_total(one(), w, x, x, y, y + 1) == 1);
    }
}

proof fn lemma_gray_flat(img: RgbImage, c: [u8; 3], x: int, y: int)
    requires
        forall|i: int| 0 <= i < img.pix().len() ==> #[trigger] img.pix()[i] == c,
        0 <= x < img.w(),
        0 <= y < img.h(),
        img.pix().len() == img.w() * img.h(),
    ensures
        gray_at(img, x, y) == luma_of(c),
{
    lemma_index_in_grid(x, y, img.w() as int, img.h() as int);
}

/// On an image of one uniform colour the edge overlay is transparent
/// everywhere: both Sobel responses vanish.
pub proof fn lemma_flat_image_no_edges(img: RgbImage, x: int, y: int, px: [u8; 4])
    requires
        forall|i: int, j: int|
            0 <= i < img.pix().len() && 0 <= j < img.pix().len() ==> #[trigger] img.pix()[i]
                == #[trigger] img.pix()[j],
        0 <= x < img.w(),
        0 <= y < img.h(),
        img.pix().len() == img.w() * img.h(),
        edge_px(img, x, y, px),
    ensures
        px[3] == 0,
{
    let w = img.w() as int;
    let h = img.h() as int;
    if 0 < x < w - 1 && 0 < y < h - 1 {
        lemma_index_in_grid(x, y, w, h);
        let c = img.pix()[y * w + x];
        assert forall|i: int| 0 <= i < img.pix().len() implies #[trigger] img.pix()[i] == c by {
            assert(img.pix()[i] == img.pix()[y * w + x]);
        }
        lemma_gray_flat(img, c, x - 1, y - 1);
        lemma_gray_flat(img, c, x - 1, y);
        lemma_gray_flat(img, c, x - 1, y + 1);
        lemma_gray_flat(img, c, x, y - 1);
        lemma_gray_flat(img, c, x, y + 1);
        lemma_gray_flat(img, c, x + 1, y - 1);
        lemma_gray_flat(img, c, x + 1, y);
        lemma_gray_flat(img, c, x + 1, y + 1);
        assert(sobel_x(img, x, y) == 0);
        assert(sobel_y(img, x, y) == 0);
        assert(sobel_x(img, x, y) * sobel_x(img, x, y) + sobel_y(img, x, y) * sobel_y(img, x, y)
            == 0) by (nonlinear_arith)
            requires
                sobel_x(img, x, y) == 0,
                sobel_y(img, x, y) == 0,
        ;
        let a = px[3] as int;
        assert(a * a <= 0 ==> a == 0) by (nonlinear_arith)
            requires
                0 <= a,
        ;
    }
}

} // verus!
