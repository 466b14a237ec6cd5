//! Floyd-Steinberg error-diffusion dithering.
//!
//! Pixels are processed in raster order. Each pixel takes the error carried
//! to its column, clamps, quantizes against the palette, and hands the
//! residual on to its unprocessed neighbors with the classic weights:
//! 7/16 right, 3/16 down-left, 5/16 down, 1/16 down-right, every share
//! truncated toward zero.

use vstd::prelude::*;
use crate::image_utils::{lemma_nearest_index, nearest_index, nearest_palette_color};
use crate::rgb16::{
    clamp_u16_i32, clamp_u16_spec, proj8_spec, u16_to_u8, u16_to_u8_spec, Rgb16,
};

verus! {

/// Division by 16 truncated toward zero, as the error shares use.
pub open spec fn tdiv16(v: int) -> int {
    if v >= 0 {
        v / 16
    } else {
        -((-v) / 16)
    }
}

/// A row of error accumulators, all zero.
pub open spec fn zero_errs(n: int) -> Seq<int> {
    Seq::new(n as nat, |i: int| 0)
}

/// The integer values of a row of 32-bit accumulators.
pub open spec fn int_view(s: Seq<i32>) -> Seq<int> {
    s.map_values(|v: i32| v as int)
}

/// How much of a dimension is still ahead of a coordinate.
pub open spec fn ahead(limit: int, i: int) -> int {
    if i < limit {
        limit - i
    } else {
        0
    }
}

/// One complete run of Floyd-Steinberg dithering from pixel `(x, y)` on,
/// given the error rows carried to this point and the output built so far.
/// `er0`/`eg0`/`eb0` hold the error for the current row, the other three
/// rows collect what flows downward; at the end of a row the next row's
/// errors become current and a fresh zero row starts collecting.
pub open spec fn fs_dither(
    src: Seq<u16>,
    w: int,
    h: int,
    pal: Seq<Rgb16>,
    y: int,
    x: int,
    er0: Seq<int>,
    eg0: Seq<int>,
    eb0: Seq<int>,
    er1: Seq<int>,
    eg1: Seq<int>,
    eb1: Seq<int>,
    out: Seq<u8>,
) -> Seq<u8>
    decreases ahead(h, y), ahead(w + 1, x),
{
    if y < 0 || y >= h || w <= 0 {
        out
    } else if x < 0 || x >= w {
        fs_dither(
            src,
            w,
            h,
            pal,
            y + 1,
            0,
            er1,
            eg1,
            eb1,
            zero_errs(w + 2),
            zero_errs(w + 2),
            zero_errs(w + 2),
            out,
        )
    } else {
        let p = (y * w + x) * 4;
        let r = clamp_u16_spec(src[p] + er0[x]);
        let g = clamp_u16_spec(src[p + 1] + eg0[x]);
        let b = clamp_u16_spec(src[p + 2] + eb0[x]);
        let a = src[p + 3];
        let q = pal[nearest_index(Rgb16 { r, g, b }, pal)];
        let out2 = out.push(u16_to_u8_spec(q.r)).push(u16_to_u8_spec(q.g)).push(
            u16_to_u8_spec(q.b),
        ).push(u16_to_u8_spec(a));
        let err_r = r - q.r;
        let err_g = g - q.g;
        let err_b = b - q.b;
        let er0n = if x + 1 < w {
            er0.update(x + 1, er0[x + 1] + tdiv16(err_r * 7))
        } else {
            er0
        };
        let eg0n = if x + 1 < w {
            eg0.update(x + 1, eg0[x + 1] + tdiv16(err_g * 7))
        } else {
            eg0
        };
        let eb0n = if x + 1 < w {
            eb0.update(x + 1, eb0[x + 1] + tdiv16(err_b * 7))
        } else {
            eb0
        };
        let er1a = if x > 0 && y + 1 < h {
            er1.update(x - 1, er1[x - 1] + tdiv16(err_r * 3))
        } else {
            er1
        };
        let eg1a = if x > 0 && y + 1 < h {
            eg1.update(x - 1, eg1[x - 1] + tdiv16(err_g * 3))
        } else {
            eg1
        };
        let eb1a = if x > 0 && y + 1 < h {
            eb1.update(x - 1, eb1[x - 1] + tdiv16(err_b * 3))
        } else {
            eb1
        };
        let er1b = if y + 1 < h {
            er1a.update(x, er1a[x] + tdiv16(err_r * 5))
        } else {
            er1a
        };
        let eg1b = if y + 1 < h {
            eg1a.update(x, eg1a[x] + tdiv16(err_g * 5))
        } else {
            eg1a
        };
        let eb1b = if y + 1 < h {
            eb1a.update(x, eb1a[x] + tdiv16(err_b * 5))
        } else {
            eb1a
        };
        let er1c = if x + 1 < w && y + 1 < h {
            er1b.update(x + 1, er1b[x + 1] + tdiv16(err_r * 1))
        } else {
            er1b
        };
        let eg1c = if x + 1 < w && y + 1 < h {
            eg1b.update(x + 1, eg1b[x + 1] + tdiv16(err_g * 1))
        } else {
            eg1b
        };
        let eb1c = if x + 1 < w && y + 1 < h {
            eb1b.update(x + 1, eb1b[x + 1] + tdiv16(err_b * 1))
        } else {
            eb1b
        };
        fs_dither(src, w, h, pal, y, x + 1, er0n, eg0n, eb0n, er1c, eg1c, eb1c, out2)
    }
}

/// The dithered 8-bit output of a 16-bit RGBA buffer against a palette:
/// the full run from the top-left pixel with all-zero error rows.
pub open spec fn dither_fs_spec(src: Seq<u16>, w: int, h: int, pal: Seq<Rgb16>) -> Seq<u8> {
    fs_dither(
        src,
        w,
        h,
        pal,
        0,
        0,
        zero_errs(w + 2),
        zero_errs(w + 2),
        zero_errs(w + 2),
        zero_errs(w + 2),
        zero_errs(w + 2),
        zero_errs(w + 2),
        Seq::empty(),
    )
}

/// A share of at most a sixteenth-fold of a bounded value is bounded by
/// the same fraction of the bound.
proof fn lemma_tdiv16_bound(v: int, m: int)
    requires
        0 <= m,
        -m <= v <= m,
    ensures
        -(m / 16) <= tdiv16(v) <= m / 16,
{
    if v >= 0 {
        vstd::arithmetic::div_mod::lemma_div_is_ordered(v, m, 16);
    } else {
        vstd::arithmetic::div_mod::lemma_div_is_ordered(-v, m, 16);
    }
}

/// One weighted error share, `(err * weight) / 16` truncated toward zero,
/// computed on magnitudes so that the division is unsigned.
fn weighted_err(err: i32, weight: u32) -> (d: i32)
    requires
        -65535 <= err <= 65535,
        1 <= weight <= 7,
    ensures
        d as int == tdiv16((err as int) * (weight as int)),
        -((65535 * (weight as int)) / 16) <= d as int <= (65535 * (weight as int)) / 16,
{
    proof {
        assert((err as int) * (weight as int) <= 65535 * (weight as int) && -(65535 * (
        weight as int)) <= (err as int) * (weight as int) && (err < 0 ==> (err as int) * (
        weight as int) < 0) && (err >= 0 ==> (err as int) * (weight as int) >= 0) && (-(
        err as int)) * (weight as int) == -((err as int) * (weight as int)))
            by (nonlinear_arith)
            requires
                -65535 <= err <= 65535,
                1 <= weight <= 7,
        ;
        lemma_tdiv16_bound((err as int) * (weight as int), 65535 * (weight as int));
    }
    if err >= 0 {
        (((err as u32) * weight) / 16) as i32
    } else {
        -((((-err) as u32) * weight / 16) as i32)
    }
}

/// Bounds that hold of a next-row accumulator while the current row is at
/// column `x`: completed cells carry at most the three full shares, the
/// cells still ahead at most what has reached them so far.
spec fn row_next_ok(e: Seq<int>, x: int) -> bool {
    &&& forall|j: int| 0 <= j < e.len() ==> -36861 <= #[trigger] e[j] <= 36861
    &&& (0 <= x - 1 < e.len() ==> -24574 <= e[x - 1] <= 24574)
    &&& (0 <= x < e.len() ==> -4095 <= e[x] <= 4095)
    &&& forall|j: int| x + 1 <= j < e.len() ==> #[trigger] e[j] == 0
}

/// Bounds that hold of a current-row accumulator at column `x`: the cell
/// being read carries at most a full inflow, cells ahead have not yet
/// received their share from the left.
spec fn row_cur_ok(e: Seq<int>, x: int) -> bool {
    &&& forall|j: int| 0 <= j < e.len() ==> -65532 <= #[trigger] e[j] <= 65532
    &&& forall|j: int| x + 1 <= j < e.len() ==> -36861 <= #[trigger] e[j] <= 36861
}

/// Floyd-Steinberg dithering of a 16-bit RGBA buffer to 8-bit against a
/// non-empty palette. Every output pixel's RGB is the 8-bit projection of
/// the palette entry nearest to its error-adjusted color; alpha is carried
/// through from the source, rounded to 8 bits.
#[verifier::rlimit(100)]
pub fn dither_fs_palette_rgba16_to_rgba8(
    src16: &[u16],
    dst8: &mut Vec<u8>,
    w: usize,
    h: usize,
    palette: &[Rgb16],
)
    requires
        src16@.len() == w * h * 4,
        w * h * 4 <= usize::MAX,
        w + 2 <= usize::MAX,
        palette@.len() >= 1,
    ensures
        final (dst8)@ == dither_fs_spec(src16@, w as int, h as int, palette@),
{
    dst8.clear();
    let ghost full = dither_fs_spec(src16@, w as int, h as int, palette@);
    let mut er0: Vec<i32> = vec![0i32; w + 2];
    let mut eg0: Vec<i32> = vec![0i32; w + 2];
    let mut eb0: Vec<i32> = vec![0i32; w + 2];
    let mut er1: Vec<i32> = vec![0i32; w + 2];
    let mut eg1: Vec<i32> = vec![0i32; w + 2];
    let mut eb1: Vec<i32> = vec![0i32; w + 2];
    proof {
        assert(int_view(er0@) =~= zero_errs(w as int + 2));
        assert(int_view(eg0@) =~= zero_errs(w as int + 2));
        assert(int_view(eb0@) =~= zero_errs(w as int + 2));
        assert(int_view(er1@) =~= zero_errs(w as int + 2));
        assert(int_view(eg1@) =~= zero_errs(w as int + 2));
        assert(int_view(eb1@) =~= zero_errs(w as int + 2));
    }
    let mut y: usize = 0;
    while y < h
        invariant
            src16@.len() == w * h * 4,
            w * h * 4 <= usize::MAX,
            w + 2 <= usize::MAX,
            palette@.len() >= 1,
            0 <= y <= h,
            er0@.len() == w + 2,
            eg0@.len() == w + 2,
            eb0@.len() == w + 2,
            er1@.len() == w + 2,
            eg1@.len() == w + 2,
            eb1@.len() == w + 2,
            row_cur_ok(int_view(er0@), 0),
            row_cur_ok(int_view(eg0@), 0),
            row_cur_ok(int_view(eb0@), 0),
            int_view(er1@) == zero_errs(w as int + 2),
            int_view(eg1@) == zero_errs(w as int + 2),
            int_view(eb1@) == zero_errs(w as int + 2),
            dst8@.len() == y * w * 4,
            full == fs_dither(
                src16@,
                w as int,
                h as int,
                palette@,
                y as int,
                0,
                int_view(er0@),
                int_view(eg0@),
                int_view(eb0@),
                int_view(er1@),
                int_view(eg1@),
                int_view(eb1@),
                dst8@,
            ),
        decreases h - y,
    {
        let mut x: usize = 0;
        proof {
            assert(y * w * 4 + w * 4 <= w * h * 4 && (y * w + w) * 4 == y * w * 4 + w * 4 && (y * w)
                * 4 == y * w * 4) by (nonlinear_arith)
                requires
                    0 <= y < h,
                    w >= 0,
            ;
        }
        while x < w
            invariant
                src16@.len() == w * h * 4,
                w * h * 4 <= usize::MAX,
                w + 2 <= usize::MAX,
                palette@.len() >= 1,
                0 <= y < h,
                0 <= x <= w,
                er0@.len() == w + 2,
                eg0@.len() == w + 2,
                eb0@.len() == w + 2,
                er1@.len() == w + 2,
                eg1@.len() == w + 2,
                eb1@.len() == w + 2,
                row_cur_ok(int_view(er0@), x as int),
                row_cur_ok(int_view(eg0@), x as int),
                row_cur_ok(int_view(eb0@), x as int),
                row_next_ok(int_view(er1@), x as int),
                row_next_ok(int_view(eg1@), x as int),
                row_next_ok(int_view(eb1@), x as int),
                dst8@.len() == y * w * 4 + x * 4,
                y * w * 4 + w * 4 <= w * h * 4,
                full == fs_dither(
                    src16@,
                    w as int,
                    h as int,
                    palette@,
                    y as int,
                    x as int,
                    int_view(er0@),
                    int_view(eg0@),
                    int_view(eb0@),
                    int_view(er1@),
                    int_view(eg1@),
                    int_view(eb1@),
                    dst8@,
                ),
            decreases w - x,
        {
            let ghost ger0 = int_view(er0@);
            let ghost geg0 = int_view(eg0@);
            let ghost geb0 = int_view(eb0@);
            let ghost ger1 = int_view(er1@);
            let ghost geg1 = int_view(eg1@);
            let ghost geb1 = int_view(eb1@);
            let ghost out0 = dst8@;
            proof {
                assert((y * w + x) * 4 == y * w * 4 + x * 4 && y * w * 4 + x * 4 + 4 <= y * w * 4
                    + w * 4) by (nonlinear_arith)
                    requires
                        0 <= x < w,
                ;
            }
            let p = (y * w + x) * 4;
            let r = clamp_u16_i32(src16[p] as i32 + er0[x]);
            let g = clamp_u16_i32(src16[p + 1] as i32 + eg0[x]);
            let b = clamp_u16_i32(src16[p + 2] as i32 + eb0[x]);
            let a = src16[p + 3];
            let cur = Rgb16 { r, g, b };
            let q = nearest_palette_color(cur, palette);
            dst8.push(u16_to_u8(q.r));
            dst8.push(u16_to_u8(q.g));
            dst8.push(u16_to_u8(q.b));
            dst8.push(u16_to_u8(a));
            let err_r = r as i32 - q.r as i32;
            let err_g = g as i32 - q.g as i32;
            let err_b = b as i32 - q.b as i32;
            // right: 7/16
            if x + 1 < w {
                let t = er0[x + 1] + weighted_err(err_r, 7);
                er0[x + 1] = t;
                let t = eg0[x + 1] + weighted_err(err_g, 7);
                eg0[x + 1] = t;
                let t = eb0[x + 1] + weighted_err(err_b, 7);
                eb0[x + 1] = t;
            }
            // down-left: 3/16
            if x > 0 && y + 1 < h {
                let t = er1[x - 1] + weighted_err(err_r, 3);
                er1[x - 1] = t;
                let t = eg1[x - 1] + weighted_err(err_g, 3);
                eg1[x - 1] = t;
                let t = eb1[x - 1] + weighted_err(err_b, 3);
                eb1[x - 1] = t;
            }
            // down: 5/16
            if y + 1 < h {
                let t = er1[x] + weighted_err(err_r, 5);
                er1[x] = t;
                let t = eg1[x] + weighted_err(err_g, 5);
                eg1[x] = t;
                let t = eb1[x] + weighted_err(err_b, 5);
                eb1[x] = t;
            }
            // down-right: 1/16
            if x + 1 < w && y + 1 < h {
                let t = er1[x + 1] + weighted_err(err_r, 1);
                er1[x + 1] = t;
                let t = eg1[x + 1] + weighted_err(err_g, 1);
                eg1[x + 1] = t;
                let t = eb1[x + 1] + weighted_err(err_b, 1);
                eb1[x + 1] = t;
            }
            proof {
                let xi = x as int;
                let pi = (y as int * w as int + xi) * 4;
                let rs = clamp_u16_spec(src16@[pi] + ger0[xi]);
                let gs = clamp_u16_spec(src16@[pi + 1] + geg0[xi]);
                let bs = clamp_u16_spec(src16@[pi + 2] + geb0[xi]);
                assert(rs == r && gs == g && bs == b);
                let qs = palette@[nearest_index(Rgb16 { r: rs, g: gs, b: bs }, palette@)];
                assert(qs == q);
                let err_rs = rs - qs.r;
                let err_gs = gs - qs.g;
                let err_bs = bs - qs.b;
                let er0n = if xi + 1 < w {
                    ger0.update(xi + 1, ger0[xi + 1] + tdiv16(err_rs * 7))
                } else {
                    ger0
                };
                let eg0n = if xi + 1 < w {
                    geg0.update(xi + 1, geg0[xi + 1] + tdiv16(err_gs * 7))
                } else {
                    geg0
                };
                let eb0n = if xi + 1 < w {
                    geb0.update(xi + 1, geb0[xi + 1] + tdiv16(err_bs * 7))
                } else {
                    geb0
                };
                let er1a = if xi > 0 && y as int + 1 < h {
                    ger1.update(xi - 1, ger1[xi - 1] + tdiv16(err_rs * 3))
                } else {
                    ger1
                };
                let eg1a = if xi > 0 && y as int + 1 < h {
                    geg1.update(xi - 1, geg1[xi - 1] + tdiv16(err_gs * 3))
                } else {
                    geg1
                };
                let eb1a = if xi > 0 && y as int + 1 < h {
                    geb1.update(xi - 1, geb1[xi - 1] + tdiv16(err_bs * 3))
                } else {
                    geb1
                };
                let er1b = if y as int + 1 < h {
                    er1a.update(xi, er1a[xi] + tdiv16(err_rs * 5))
                } else {
                    er1a
                };
                let eg1b = if y as int + 1 < h {
                    eg1a.update(xi, eg1a[xi] + tdiv16(err_gs * 5))
                } else {
                    eg1a
                };
                let eb1b = if y as int + 1 < h {
                    eb1a.update(xi, eb1a[xi] + tdiv16(err_bs * 5))
                } else {
                    eb1a
                };
                let er1c = if xi + 1 < w && y as int + 1 < h {
                    er1b.update(xi + 1, er1b[xi + 1] + tdiv16(err_rs * 1))
                } else {
                    er1b
                };
                let eg1c = if xi + 1 < w && y as int + 1 < h {
                    eg1b.update(xi + 1, eg1b[xi + 1] + tdiv16(err_gs * 1))
                } else {
                    eg1b
                };
                let eb1c = if xi + 1 < w && y as int + 1 < h {
                    eb1b.update(xi + 1, eb1b[xi + 1] + tdiv16(err_bs * 1))
                } else {
                    eb1b
                };
                assert(int_view(er0@) =~= er0n);
                assert(int_view(eg0@) =~= eg0n);
                assert(int_view(eb0@) =~= eb0n);
                assert(int_view(er1@) =~= er1c);
                assert(int_view(eg1@) =~= eg1c);
                assert(int_view(eb1@) =~= eb1c);
                assert(dst8@ =~= out0.push(u16_to_u8_spec(qs.r)).push(u16_to_u8_spec(qs.g)).push(
                    u16_to_u8_spec(qs.b),
                ).push(u16_to_u8_spec(src16@[pi + 3])));
                assert(full == fs_dither(
                    src16@,
                    w as int,
                    h as int,
                    palette@,
                    y as int,
                    xi + 1,
                    int_view(er0@),
                    int_view(eg0@),
                    int_view(eb0@),
                    int_view(er1@),
                    int_view(eg1@),
                    int_view(eb1@),
                    dst8@,
                ));
            }
            x += 1;
        }
        // next row becomes current, a fresh zero row starts collecting
        er0 = er1;
        eg0 = eg1;
        eb0 = eb1;
        er1 = vec![0i32; w + 2];
        eg1 = vec![0i32; w + 2];
        eb1 = vec![0i32; w + 2];
        proof {
            assert(int_view(er1@) =~= zero_errs(w as int + 2));
            assert(int_view(eg1@) =~= zero_errs(w as int + 2));
            assert(int_view(eb1@) =~= zero_errs(w as int + 2));
            assert((y + 1) * w * 4 == y * w * 4 + w * 4) by (nonlinear_arith);
        }
        y += 1;
    }
    proof {
        assert(full == dst8@);
    }
}

/// Pixel `i` of a dithered buffer shows the 8-bit projection of some
/// palette entry.
pub open spec fn pixel_quantized(res: Seq<u8>, pal: Seq<Rgb16>, i: int) -> bool {
    exists|j: int|
        0 <= j < pal.len() && (res[4 * i], res[4 * i + 1], res[4 * i + 2]) == proj8_spec(
            #[trigger] pal[j],
        )
}

proof fn lemma_fs_dither_props(
    src: Seq<u16>,
    w: int,
    h: int,
    pal: Seq<Rgb16>,
    y: int,
    x: int,
    er0: Seq<int>,
    eg0: Seq<int>,
    eb0: Seq<int>,
    er1: Seq<int>,
    eg1: Seq<int>,
    eb1: Seq<int>,
    out: Seq<u8>,
    res: Seq<u8>,
)
    requires
        pal.len() >= 1,
        src.len() == w * h * 4,
        w >= 1,
        0 <= y <= h,
        0 <= x <= w,
        y == h ==> x == 0,
        out.len() == 4 * (y * w + x),
        res == fs_dither(src, w, h, pal, y, x, er0, eg0, eb0, er1, eg1, eb1, out),
    ensures
        res.len() == 4 * (w * h),
        res.subrange(0, out.len() as int) == out,
        forall|i: int| y * w + x <= i < w * h ==> pixel_quantized(res, pal, #[trigger] (i * 1)),
        forall|i: int|
            y * w + x <= i < w * h ==> #[trigger] res[4 * i + 3] == u16_to_u8_spec(src[4 * i + 3]),
    decreases ahead(h, y), ahead(w + 1, x),
{
    if y >= h {
        assert(res == out);
        assert(h * w == w * h) by (nonlinear_arith);
        assert(res.subrange(0, out.len() as int) =~= out);
    } else if x >= w {
        assert(y * w + w == (y + 1) * w) by (nonlinear_arith);
        lemma_fs_dither_props(
            src,
            w,
            h,
            pal,
            y + 1,
            0,
            er1,
            eg1,
            eb1,
            zero_errs(w + 2),
            zero_errs(w + 2),
            zero_errs(w + 2),
            out,
            res,
        );
    } else {
        let p = (y * w + x) * 4;
        let r = clamp_u16_spec(src[p] + er0[x]);
        let g = clamp_u16_spec(src[p + 1] + eg0[x]);
        let b = clamp_u16_spec(src[p + 2] + eb0[x]);
        let a = src[p + 3];
        let cur = Rgb16 { r, g, b };
        let ni = nearest_index(cur, pal);
        let q = pal[ni];
        let out2 = out.push(u16_to_u8_spec(q.r)).push(u16_to_u8_spec(q.g)).push(
            u16_to_u8_spec(q.b),
        ).push(u16_to_u8_spec(a));
        let err_r = r - q.r;
        let err_g = g - q.g;
        let err_b = b - q.b;
        let er0n = if x + 1 < w {
            er0.update(x + 1, er0[x + 1] + tdiv16(err_r * 7))
        } else {
            er0
        };
        let eg0n = if x + 1 < w {
            eg0.update(x + 1, eg0[x + 1] + tdiv16(err_g * 7))
        } else {
            eg0
        };
        let eb0n = if x + 1 < w {
            eb0.update(x + 1, eb0[x + 1] + tdiv16(err_b * 7))
        } else {
            eb0
        };
        let er1a = if x > 0 && y + 1 < h {
            er1.update(x - 1, er1[x - 1] + tdiv16(err_r * 3))
        } else {
            er1
        };
        let eg1a = if x > 0 && y + 1 < h {
            eg1.update(x - 1, eg1[x - 1] + tdiv16(err_g * 3))
        } else {
            eg1
        };
        let eb1a = if x > 0 && y + 1 < h {
            eb1.update(x - 1, eb1[x - 1] + tdiv16(err_b * 3))
        } else {
            eb1
        };
        let er1b = if y + 1 < h {
            er1a.update(x, er1a[x] + tdiv16(err_r * 5))
        } else {
            er1a
        };
        let eg1b = if y + 1 < h {
            eg1a.update(x, eg1a[x] + tdiv16(err_g * 5))
        } else {
            eg1a
        };
        let eb1b = if y + 1 < h {
            eb1a.update(x, eb1a[x] + tdiv16(err_b * 5))
        } else {
            eb1a
        };
        let er1c = if x + 1 < w && y + 1 < h {
            er1b.update(x + 1, er1b[x + 1] + tdiv16(err_r * 1))
        } else {
            er1b
        };
        let eg1c = if x + 1 < w && y + 1 < h {
            eg1b.update(x + 1, eg1b[x + 1] + tdiv16(err_g * 1))
        } else {
            eg1b
        };
        let eb1c = if x + 1 < w && y + 1 < h {
            eb1b.update(x + 1, eb1b[x + 1] + tdiv16(err_b * 1))
        } else {
            eb1b
        };
        assert(res == fs_dither(src, w, h, pal, y, x + 1, er0n, eg0n, eb0n, er1c, eg1c, eb1c, out2));
        lemma_fs_dither_props(
            src,
            w,
            h,
            pal,
            y,
            x + 1,
            er0n,
            eg0n,
            eb0n,
            er1c,
            eg1c,
            eb1c,
            out2,
            res,
        );
        let i0 = y * w + x;
        assert(i0 + 1 <= w * h) by (nonlinear_arith)
            requires
                0 <= y < h,
                0 <= x < w,
                i0 == y * w + x,
        ;
        assert forall|t: int| 0 <= t < out2.len() implies #[trigger] res[t] == out2[t] by {
            assert(res.subrange(0, out2.len() as int)[t] == res[t]);
        }
        assert forall|t: int|
            0 <= t < out.len() implies res.subrange(0, out.len() as int)[t] == out[t] by {
            assert(res.subrange(0, out.len() as int)[t] == res[t]);
        }
        assert(res.subrange(0, out.len() as int) =~= out);
        assert(res[4 * i0] == out2[4 * i0] && res[4 * i0 + 1] == out2[4 * i0 + 1] && res[4 * i0 + 2]
            == out2[4 * i0 + 2] && res[4 * i0 + 3] == out2[4 * i0 + 3]);
        lemma_nearest_index(cur, pal, pal.len() as int);
        assert(pixel_quantized(res, pal, i0 * 1)) by {
            assert((res[4 * i0], res[4 * i0 + 1], res[4 * i0 + 2]) == proj8_spec(pal[ni]));
        }
        assert forall|i: int| y * w + x <= i < w * h implies pixel_quantized(
            res,
            pal,
            #[trigger] (i * 1),
        ) && res[4 * i + 3] == u16_to_u8_spec(src[4 * i + 3]) by {
            if i == i0 {
                assert(res[4 * i0 + 3] == u16_to_u8_spec(src[p + 3]));
            } else {
                assert(pixel_quantized(res, pal, i * 1));
            }
        }
    }
}

/// Every pixel of a dithered buffer shows the 8-bit projection of some
/// palette entry, with alpha carried through from the source: the output
/// really is quantized to the palette.
pub proof fn lemma_dither_output_quantized(src: Seq<u16>, w: int, h: int, pal: Seq<Rgb16>)
    requires
        pal.len() >= 1,
        src.len() == w * h * 4,
        w >= 0,
        h >= 0,
    ensures
        dither_fs_spec(src, w, h, pal).len() == 4 * (w * h),
        forall|i: int|
            0 <= i < w * h ==> pixel_quantized(dither_fs_spec(src, w, h, pal), pal, #[trigger] (i
                * 1)),
        forall|i: int|
            0 <= i < w * h ==> #[trigger] dither_fs_spec(src, w, h, pal)[4 * i + 3]
                == u16_to_u8_spec(src[4 * i + 3]),
{
    let res = dither_fs_spec(src, w, h, pal);
    if w == 0 || h == 0 {
        assert(res == Seq::<u8>::empty());
        assert(w * h == 0) by (nonlinear_arith)
            requires
                w == 0 || h == 0,
        ;
    } else {
        lemma_fs_dither_props(
            src,
            w,
            h,
            pal,
            0,
            0,
            zero_errs(w + 2),
            zero_errs(w + 2),
            zero_errs(w + 2),
            zero_errs(w + 2),
            zero_errs(w + 2),
            zero_errs(w + 2),
            Seq::empty(),
            res,
        );
    }
}

/// Dithering is deterministic: two runs over the same source buffer and
/// palette agree byte for byte.
pub proof fn lemma_dither_deterministic(
    src: Seq<u16>,
    w: int,
    h: int,
    pal: Seq<Rgb16>,
    d1: Seq<u8>,
    d2: Seq<u8>,
)
    requires
        d1 == dither_fs_spec(src, w, h, pal),
        d2 == dither_fs_spec(src, w, h, pal),
    ensures
        d1 == d2,
{
}

} // verus!
