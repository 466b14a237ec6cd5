//! Palette building and nearest-color matching.
//!
//! The pixel buffers are interleaved RGBA: four channel values per pixel in
//! raster order, `len == width * height * 4`. Palette work runs on 16-bit
//! channels.

use vstd::prelude::*;
use vstd::seq_lib::lemma_multiset_commutative;
use crate::color_box::{
    avg_spec, ch_val, max_ch, min_ch, score_spec, sort_by_channel, widest_channel,
    lemma_minmax_ch, lemma_sort_by_channel, Channel, ColorBox16,
};
use crate::rgb16::Rgb16;

verus! {

/// How many pixel indices are still ahead of position `i`.
pub open spec fn remaining(total: int, i: int) -> int {
    if i < total {
        total - i
    } else {
        0
    }
}

/// The sampling stride: enough to visit at most roughly `max_samples`
/// pixels, and never less than one.
pub open spec fn sample_stride(total: int, max_samples: int) -> int {
    if total / max_samples >= 1 {
        total / max_samples
    } else {
        1
    }
}

/// The colors picked when walking pixels `i, i + step, ...` of an RGBA16
/// buffer, keeping those whose alpha channel exceeds the threshold.
pub open spec fn sampled_colors(
    src: Seq<u16>,
    total: int,
    step: int,
    thr: u16,
    i: int,
) -> Seq<Rgb16>
    decreases remaining(total, i),
{
    if step < 1 || i < 0 || i >= total {
        Seq::empty()
    } else {
        let rest = sampled_colors(src, total, step, thr, i + step);
        if src[4 * i + 3] > thr {
            seq![Rgb16 { r: src[4 * i], g: src[4 * i + 1], b: src[4 * i + 2] }] + rest
        } else {
            rest
        }
    }
}

/// What sampling returns: the strided, alpha-filtered colors, or the first
/// pixel's color as a fallback when everything was filtered away and the
/// image is non-empty.
pub open spec fn sample_spec(src: Seq<u16>, w: int, h: int, max_samples: int, thr: u16) -> Seq<
    Rgb16,
> {
    let total = w * h;
    let picked = sampled_colors(src, total, sample_stride(total, max_samples), thr, 0);
    if picked.len() == 0 && total > 0 {
        seq![Rgb16 { r: src[0], g: src[1], b: src[2] }]
    } else {
        picked
    }
}

/// Strided sampling of opaque-enough pixels from a 16-bit RGBA buffer.
/// Near-transparent pixels (alpha at or below the threshold) are excluded
/// so that they do not bias the palette; if that excludes everything in a
/// non-empty image, the first pixel's color serves as the single sample.
pub fn sample_rgb16_from_rgba16(
    src16: &[u16],
    w: usize,
    h: usize,
    max_samples: usize,
    alpha_threshold: u16,
) -> (out: Vec<Rgb16>)
    requires
        src16@.len() == w * h * 4,
        w * h * 4 <= usize::MAX,
        max_samples >= 1,
    ensures
        out@ == sample_spec(src16@, w as int, h as int, max_samples as int, alpha_threshold),
{
    let total: usize = w * h;
    let step0: usize = total / max_samples;
    proof {
        assert(total / max_samples <= total) by (nonlinear_arith)
            requires
                max_samples >= 1,
                total >= 0,
        ;
    }
    let step: usize = if step0 >= 1 {
        step0
    } else {
        1
    };
    let ghost full = sampled_colors(
        src16@,
        total as int,
        step as int,
        alpha_threshold,
        0,
    );
    let mut out: Vec<Rgb16> = Vec::new();
    let mut i: usize = 0;
    while i < total
        invariant
            src16@.len() == w * h * 4,
            w * h * 4 <= usize::MAX,
            total == w * h,
            step >= 1,
            total > 0 ==> step <= total,
            full == out@ + sampled_colors(
                src16@,
                total as int,
                step as int,
                alpha_threshold,
                i as int,
            ),
        decreases remaining(total as int, i as int),
    {
        let ghost rest = sampled_colors(
            src16@,
            total as int,
            step as int,
            alpha_threshold,
            i as int,
        );
        let ghost rest_next = sampled_colors(
            src16@,
            total as int,
            step as int,
            alpha_threshold,
            i as int + step as int,
        );
        let p = i * 4;
        let a = src16[p + 3];
        if a > alpha_threshold {
            let c = Rgb16 { r: src16[p], g: src16[p + 1], b: src16[p + 2] };
            proof {
                assert(rest == seq![c] + rest_next);
                assert(out@.push(c) + rest_next =~= out@ + rest);
            }
            out.push(c);
        }
        i += step;
    }
    proof {
        assert(out@ + Seq::<Rgb16>::empty() =~= out@);
    }
    if out.len() == 0 {
        if total > 0 {
            out.push(Rgb16 { r: src16[0], g: src16[1], b: src16[2] });
            proof {
                assert(out@ =~= seq![Rgb16 { r: src16@[0], g: src16@[1], b: src16@[2] }]);
            }
        }
    }
    out
}

/// Squared Euclidean distance between two colors over the three channels.
pub open spec fn dist2(a: Rgb16, b: Rgb16) -> int {
    (a.r - b.r) * (a.r - b.r) + (a.g - b.g) * (a.g - b.g) + (a.b - b.b) * (a.b - b.b)
}

/// Index of the entry of the first `n` palette entries closest to `c`;
/// among equally distant entries the earliest wins.
pub open spec fn nearest_in_prefix(c: Rgb16, p: Seq<Rgb16>, n: int) -> int
    decreases n,
{
    if n <= 1 {
        0
    } else {
        let b = nearest_in_prefix(c, p, n - 1);
        if dist2(c, p[n - 1]) < dist2(c, p[b]) {
            n - 1
        } else {
            b
        }
    }
}

/// Index of the palette entry closest to `c`, earliest index on ties.
pub open spec fn nearest_index(c: Rgb16, p: Seq<Rgb16>) -> int {
    nearest_in_prefix(c, p, p.len() as int)
}

/// The nearest index really is an index, minimizes the squared distance,
/// and is the first index to do so.
pub proof fn lemma_nearest_index(c: Rgb16, p: Seq<Rgb16>, n: int)
    requires
        1 <= n <= p.len(),
    ensures
        0 <= nearest_in_prefix(c, p, n) < n,
        forall|j: int|
            0 <= j < n ==> dist2(c, #[trigger] p[j]) >= dist2(c, p[nearest_in_prefix(c, p, n)]),
        forall|j: int|
            0 <= j < nearest_in_prefix(c, p, n) ==> dist2(c, #[trigger] p[j]) > dist2(
                c,
                p[nearest_in_prefix(c, p, n)],
            ),
    decreases n,
{
    if n > 1 {
        lemma_nearest_index(c, p, n - 1);
    }
}

/// The palette entry with the smallest squared Euclidean distance to `c`;
/// ties resolve to the entry encountered first in palette order.
pub fn nearest_palette_color(c: Rgb16, palette: &[Rgb16]) -> (q: Rgb16)
    requires
        palette@.len() >= 1,
    ensures
        q == palette@[nearest_index(c, palette@)],
{
    let mut best = palette[0];
    let mut best_d: u64 = u64::MAX;
    let n: usize = palette.len();
    let mut i: usize = 0;
    while i < n
        invariant
            n == palette@.len(),
            0 <= i <= n,
            i == 0 ==> best_d == u64::MAX && best == palette@[0],
            i >= 1 ==> {
                let bi = nearest_in_prefix(c, palette@, i as int);
                &&& 0 <= bi < i
                &&& best == palette@[bi]
                &&& best_d == dist2(c, palette@[bi])
            },
        decreases n - i,
    {
        let pc = palette[i];
        let dr = c.r as i32 - pc.r as i32;
        let dg = c.g as i32 - pc.g as i32;
        let db = c.b as i32 - pc.b as i32;
        proof {
            assert((dr as i64) * (dr as i64) == (dr as int) * (dr as int) && 0 <= (dr as int) * (
            dr as int) <= 0x10000_0000i64 && 0 <= (dg as int) * (dg as int) <= 0x10000_0000i64 && 0
                <= (db as int) * (db as int) <= 0x10000_0000i64) by (nonlinear_arith)
                requires
                    -65536 < dr < 65536,
                    -65536 < dg < 65536,
                    -65536 < db < 65536,
            ;
            if i >= 1 {
                lemma_nearest_index(c, palette@, i as int);
            }
        }
        let d = ((dr as i64) * (dr as i64) + (dg as i64) * (dg as i64) + (db as i64) * (db as i64))
            as u64;
        if d < best_d {
            best_d = d;
            best = pc;
        }
        i += 1;
    }
    best
}

/// The views of a vector of boxes: each box as its color sequence.
pub open spec fn box_views(bs: Seq<ColorBox16>) -> Seq<Seq<Rgb16>> {
    bs.map_values(|b: ColorBox16| b.colors@)
}

/// Ranking of boxes for splitting: higher score first, member count as the
/// tie-break.
pub open spec fn box_key_ge(a: Seq<Rgb16>, b: Seq<Rgb16>) -> bool {
    score_spec(a) > score_spec(b) || (score_spec(a) == score_spec(b) && a.len() >= b.len())
}

/// Index of the highest-ranked of the first `n` boxes; among equally
/// ranked boxes the latest wins.
pub open spec fn best_in_prefix(boxes: Seq<Seq<Rgb16>>, n: int) -> int
    decreases n,
{
    if n <= 1 {
        0
    } else {
        let b = best_in_prefix(boxes, n - 1);
        if box_key_ge(boxes[n - 1], boxes[b]) {
            n - 1
        } else {
            b
        }
    }
}

/// Index of the box to split next.
pub open spec fn best_box_index(boxes: Seq<Seq<Rgb16>>) -> int {
    best_in_prefix(boxes, boxes.len() as int)
}

pub proof fn lemma_best_in_prefix(boxes: Seq<Seq<Rgb16>>, n: int)
    requires
        1 <= n <= boxes.len(),
    ensures
        0 <= best_in_prefix(boxes, n) < n,
        forall|j: int|
            0 <= j < n ==> box_key_ge(boxes[best_in_prefix(boxes, n)], #[trigger] boxes[j]),
    decreases n,
{
    if n > 1 {
        lemma_best_in_prefix(boxes, n - 1);
    }
}

/// The two halves a box splits into: the stable sort along the widest
/// channel, bisected at the midpoint.
pub open spec fn split_halves(s: Seq<Rgb16>) -> (Seq<Rgb16>, Seq<Rgb16>) {
    let sorted = sort_by_channel(s, widest_channel(s));
    let mid = s.len() as int / 2;
    (sorted.subrange(0, mid), sorted.subrange(mid, sorted.len() as int))
}

/// The box-growing loop: repeatedly split the highest-ranked box until
/// there are `k` boxes or the best box cannot be split, in which case it
/// moves to the end of the working order, as removing and re-appending it
/// leaves it.
pub open spec fn grow_boxes(boxes: Seq<Seq<Rgb16>>, k: int) -> Seq<Seq<Rgb16>>
    decreases k - boxes.len(),
    via grow_boxes_decreases
{
    if boxes.len() >= k || boxes.len() == 0 {
        boxes
    } else {
        let bi = best_box_index(boxes);
        let b = boxes[bi];
        if b.len() < 2 {
            boxes.remove(bi).push(b)
        } else {
            grow_boxes(boxes.remove(bi).push(split_halves(b).0).push(split_halves(b).1), k)
        }
    }
}

#[via_fn]
proof fn grow_boxes_decreases(boxes: Seq<Seq<Rgb16>>, k: int) {
    if boxes.len() < k && boxes.len() > 0 {
        lemma_best_in_prefix(boxes, boxes.len() as int);
    }
}

/// The palette a sample set quantizes to: the average color of every box
/// the growing loop ends with, in working order; pure black for an empty
/// sample set.
pub open spec fn median_cut_spec(samples: Seq<Rgb16>, k: int) -> Seq<Rgb16> {
    if samples.len() == 0 {
        seq![Rgb16 { r: 0, g: 0, b: 0 }]
    } else {
        grow_boxes(seq![samples], k).map_values(|s: Seq<Rgb16>| avg_spec(s))
    }
}

/// Total number of colors across all boxes.
pub open spec fn total_count(boxes: Seq<Seq<Rgb16>>) -> int
    decreases boxes.len(),
{
    if boxes.len() == 0 {
        0
    } else {
        total_count(boxes.drop_last()) + boxes.last().len()
    }
}

proof fn lemma_total_count_concat(a: Seq<Seq<Rgb16>>, b: Seq<Seq<Rgb16>>)
    ensures
        total_count(a + b) == total_count(a) + total_count(b),
    decreases b.len(),
{
    if b.len() == 0 {
        assert(a + b =~= a);
    } else {
        lemma_total_count_concat(a, b.drop_last());
        assert((a + b).drop_last() =~= a + b.drop_last());
        assert((a + b).last() == b.last());
    }
}

proof fn lemma_total_count_remove(boxes: Seq<Seq<Rgb16>>, i: int)
    requires
        0 <= i < boxes.len(),
    ensures
        total_count(boxes.remove(i)) == total_count(boxes) - boxes[i].len(),
{
    let left = boxes.subrange(0, i);
    let mid = seq![boxes[i]];
    let right = boxes.subrange(i + 1, boxes.len() as int);
    assert(boxes =~= left + mid + right);
    assert(boxes.remove(i) =~= left + right);
    lemma_total_count_concat(left + mid, right);
    lemma_total_count_concat(left, mid);
    lemma_total_count_concat(left, right);
    assert(total_count(mid) == boxes[i].len()) by {
        assert(mid.drop_last() =~= Seq::<Seq<Rgb16>>::empty());
        assert(total_count(mid.drop_last()) == 0);
        assert(mid.last() == boxes[i]);
    }
}

proof fn lemma_total_count_push(boxes: Seq<Seq<Rgb16>>, b: Seq<Rgb16>)
    ensures
        total_count(boxes.push(b)) == total_count(boxes) + b.len(),
{
    assert(boxes.push(b).drop_last() =~= boxes);
    assert(boxes.push(b).last() == b);
}

/// Boxes that each hold at least one color number at most the colors they
/// hold together.
pub proof fn box_count_le_total(boxes: Seq<Seq<Rgb16>>)
    requires
        forall|i: int| 0 <= i < boxes.len() ==> (#[trigger] boxes[i]).len() >= 1,
    ensures
        boxes.len() <= total_count(boxes),
    decreases boxes.len(),
{
    if boxes.len() > 0 {
        let d = boxes.drop_last();
        assert(forall|i: int| 0 <= i < d.len() ==> d[i] == #[trigger] boxes[i]);
        box_count_le_total(d);
    }
}

proof fn lemma_total_count_singletons(boxes: Seq<Seq<Rgb16>>)
    requires
        forall|i: int| 0 <= i < boxes.len() ==> (#[trigger] boxes[i]).len() == 1,
    ensures
        total_count(boxes) == boxes.len(),
    decreases boxes.len(),
{
    if boxes.len() > 0 {
        let d = boxes.drop_last();
        assert(forall|i: int| 0 <= i < d.len() ==> d[i] == #[trigger] boxes[i]);
        lemma_total_count_singletons(d);
    }
}

/// A single color has no spread on any channel.
proof fn lemma_score_singleton(s: Seq<Rgb16>)
    requires
        s.len() == 1,
    ensures
        score_spec(s) == 0,
{
    let d = s.drop_last();
    assert(d.len() == 0);
    assert(crate::color_box::min_ch(d, Channel::Red) == 65535);
    assert(crate::color_box::max_ch(d, Channel::Red) == 0);
    assert(crate::color_box::min_ch(d, Channel::Green) == 65535);
    assert(crate::color_box::max_ch(d, Channel::Green) == 0);
    assert(crate::color_box::min_ch(d, Channel::Blue) == 65535);
    assert(crate::color_box::max_ch(d, Channel::Blue) == 0);
}

/// What the box-growing loop guarantees: every box it ends with is
/// non-empty, no color is gained or lost, and the number of boxes is
/// exactly `k` unless the samples run out first, in which case it is the
/// total sample count.
pub proof fn lemma_grow_boxes(boxes: Seq<Seq<Rgb16>>, k: int)
    requires
        1 <= boxes.len() <= k,
        forall|i: int| 0 <= i < boxes.len() ==> (#[trigger] boxes[i]).len() >= 1,
    ensures
        forall|i: int|
            0 <= i < grow_boxes(boxes, k).len() ==> (#[trigger] grow_boxes(boxes, k)[i]).len()
                >= 1,
        total_count(grow_boxes(boxes, k)) == total_count(boxes),
        grow_boxes(boxes, k).len() == vstd::math::min(k, total_count(boxes)),
    decreases k - boxes.len(),
{
    let g = grow_boxes(boxes, k);
    if boxes.len() >= k {
        box_count_le_total(boxes);
    } else {
        lemma_best_in_prefix(boxes, boxes.len() as int);
        let bi = best_box_index(boxes);
        let b = boxes[bi];
        if b.len() < 2 {
            // the best box is a singleton, so every box is: a box with two
            // or more colors would outrank any singleton
            assert forall|j: int| 0 <= j < boxes.len() implies (#[trigger] boxes[j]).len()
                == 1 by {
                if boxes[j].len() >= 2 {
                    lemma_score_singleton(b);
                    lemma_minmax_ch(boxes[j], Channel::Red);
                    lemma_minmax_ch(boxes[j], Channel::Green);
                    lemma_minmax_ch(boxes[j], Channel::Blue);
                    assert(box_key_ge(b, boxes[j]));
                    assert(false);
                }
            }
            lemma_total_count_singletons(boxes);
            lemma_total_count_remove(boxes, bi);
            lemma_total_count_push(boxes.remove(bi), b);
        } else {
            let h0 = split_halves(b).0;
            let h1 = split_halves(b).1;
            lemma_sort_by_channel(b, widest_channel(b));
            let next = boxes.remove(bi).push(h0).push(h1);
            lemma_total_count_remove(boxes, bi);
            lemma_total_count_push(boxes.remove(bi), h0);
            lemma_total_count_push(boxes.remove(bi).push(h0), h1);
            assert(forall|i: int| 0 <= i < next.len() ==> (#[trigger] next[i]).len() >= 1) by {
                assert(forall|i: int|
                    0 <= i < boxes.remove(bi).len() ==> #[trigger] boxes.remove(bi)[i]
                        == boxes[if i < bi {
                        i
                    } else {
                        i + 1
                    }]);
            }
            lemma_grow_boxes(next, k);
        }
    }
}

/// Median-cut palette over a sample set: grow boxes from one box holding
/// every sample, then average each box. An empty sample set yields the
/// single-entry black palette.
pub fn median_cut_palette(samples: Vec<Rgb16>, k: usize) -> (palette: Vec<Rgb16>)
    ensures
        palette@ == median_cut_spec(samples@, k as int),
{
    if samples.len() == 0 {
        let mut v: Vec<Rgb16> = Vec::new();
        v.push(Rgb16 { r: 0, g: 0, b: 0 });
        proof {
            assert(v@ =~= seq![Rgb16 { r: 0, g: 0, b: 0 }]);
        }
        return v;
    }
    let ghost init: Seq<Seq<Rgb16>> = seq![samples@];
    let mut boxes: Vec<ColorBox16> = Vec::new();
    boxes.push(ColorBox16 { colors: samples });
    proof {
        assert(box_views(boxes@) =~= init);
    }
    while boxes.len() < k
        invariant_except_break
            boxes@.len() >= 1,
            forall|i: int| 0 <= i < boxes@.len() ==> (#[trigger] boxes@[i]).colors@.len() >= 1,
            grow_boxes(box_views(boxes@), k as int) == grow_boxes(init, k as int),
        ensures
            box_views(boxes@) == grow_boxes(init, k as int),
            forall|i: int| 0 <= i < boxes@.len() ==> (#[trigger] boxes@[i]).colors@.len() >= 1,
        decreases k - boxes@.len(),
    {
        let ghost pre = box_views(boxes@);
        let mut best_i: usize = 0;
        let mut best_score: u32 = boxes[0].score();
        let mut best_len: usize = boxes[0].colors.len();
        let n: usize = boxes.len();
        let mut idx: usize = 1;
        while idx < n
            invariant
                n == boxes@.len(),
                1 <= idx <= n,
                forall|i: int| 0 <= i < boxes@.len() ==> (#[trigger] boxes@[i]).colors@.len() >= 1,
                best_i == best_in_prefix(box_views(boxes@), idx as int),
                best_i < idx,
                best_score == score_spec(box_views(boxes@)[best_i as int]),
                best_len == box_views(boxes@)[best_i as int].len(),
            decreases n - idx,
        {
            let s = boxes[idx].score();
            let l = boxes[idx].colors.len();
            if s > best_score || (s == best_score && l >= best_len) {
                best_i = idx;
                best_score = s;
                best_len = l;
            }
            idx += 1;
        }
        assert(best_i == best_box_index(pre));
        let b = boxes.remove(best_i);
        assert(b.colors@ == pre[best_i as int]);
        if b.colors.len() < 2 {
            let ghost bv = b.colors@;
            boxes.push(b);
            proof {
                assert(box_views(boxes@) =~= pre.remove(best_i as int).push(bv));
            }
            break ;
        }
        match b.split() {
            None => {
                proof {
                    assert(false);
                }
            },
            Some((b1, b2)) => {
                boxes.push(b1);
                boxes.push(b2);
                proof {
                    let halves = split_halves(pre[best_i as int]);
                    assert(b1.colors@ == halves.0 && b2.colors@ == halves.1);
                    assert(box_views(boxes@) =~= pre.remove(best_i as int).push(halves.0).push(
                        halves.1,
                    ));
                }
            },
        }
    }
    let ghost final_views = box_views(boxes@);
    let mut palette: Vec<Rgb16> = Vec::new();
    let n: usize = boxes.len();
    let mut i: usize = 0;
    while i < n
        invariant
            n == boxes@.len(),
            0 <= i <= n,
            final_views == box_views(boxes@),
            palette@.len() == i,
            forall|j: int| 0 <= j < i ==> palette@[j] == avg_spec(final_views[j]),
        decreases n - i,
    {
        let c = boxes[i].average();
        palette.push(c);
        i += 1;
    }
    proof {
        assert(palette@ =~= grow_boxes(init, k as int).map_values(|s: Seq<Rgb16>| avg_spec(s)));
    }
    palette
}

/// The number of palette entries median cut produces: the requested count,
/// or the sample count when there are fewer samples than requested.
pub proof fn lemma_palette_size(samples: Seq<Rgb16>, k: int)
    requires
        samples.len() >= 1,
        k >= 1,
    ensures
        median_cut_spec(samples, k).len() == vstd::math::min(k, samples.len() as int),
{
    let init = seq![samples];
    assert(total_count(init) == samples.len()) by {
        assert(init.drop_last() =~= Seq::<Seq<Rgb16>>::empty());
        assert(total_count(init.drop_last()) == 0);
        assert(init.last() == samples);
    }
    lemma_grow_boxes(init, k);
}

/// A palette built from pairwise-distinct samples never has more entries
/// than there are distinct sample colors, whatever count was requested:
/// splitting stops once every box is down to a single color.
pub proof fn lemma_palette_at_most_distinct(samples: Seq<Rgb16>, k: int)
    requires
        samples.len() >= 1,
        k >= 1,
        samples.no_duplicates(),
    ensures
        median_cut_spec(samples, k).len() <= samples.to_set().len(),
{
    lemma_palette_size(samples, k);
    samples.unique_seq_to_set();
}

/// What palette building returns for a 16-bit RGBA buffer: median cut over
/// the alpha-filtered samples, with the requested size clamped to at
/// least 2.
pub open spec fn build_palette_spec(src: Seq<u16>, w: int, h: int, k: int) -> Seq<Rgb16> {
    median_cut_spec(sample_spec(src, w, h, 50000, 512), vstd::math::max(k, 2))
}

/// Median cut asked for two colors, over samples that take exactly two
/// distinct colors in equal numbers: the single split separates them
/// cleanly, so the palette is exactly those two colors, one per box.
pub proof fn lemma_two_color_palette(samples: Seq<Rgb16>, c1: Rgb16, c2: Rgb16)
    requires
        c1 != c2,
        samples.len() >= 2,
        samples.len() % 2 == 0,
        forall|i: int| 0 <= i < samples.len() ==> samples[i] == c1 || samples[i] == c2,
        samples.to_multiset().count(c1) == samples.len() / 2,
        samples.to_multiset().count(c2) == samples.len() / 2,
    ensures
        median_cut_spec(samples, 2).len() == 2,
        (median_cut_spec(samples, 2)[0] == c1 && median_cut_spec(samples, 2)[1] == c2) || (
        median_cut_spec(samples, 2)[0] == c2 && median_cut_spec(samples, 2)[1] == c1),
{
    broadcast use vstd::seq_lib::group_to_multiset_ensures;
    broadcast use vstd::multiset::group_multiset_axioms;

    let init = seq![samples];
    let h0 = split_halves(samples).0;
    let h1 = split_halves(samples).1;
    let next = init.remove(0).push(h0).push(h1);
    assert(best_box_index(init) == 0);
    assert(grow_boxes(init, 2) == grow_boxes(next, 2));
    assert(next.len() == 2);
    assert(grow_boxes(next, 2) == next);
    assert(next =~= seq![h0, h1]);
    let len = samples.len() as int;
    let m = len / 2;
    vstd::arithmetic::div_mod::lemma_fundamental_div_mod(len, 2);
    assert(len == 2 * m);
    assert(samples.to_multiset().count(c1) > 0);
    assert(samples.contains(c1));
    assert(samples.contains(c2));
    let wc = widest_channel(samples);
    let sorted = sort_by_channel(samples, wc);
    lemma_sort_by_channel(samples, wc);
    let v1 = ch_val(c1, wc) as int;
    let v2 = ch_val(c2, wc) as int;
    // the widest channel separates the two colors: some channel does, and
    // the widest channel's range dominates every channel's range
    assert(v1 != v2) by {
        let chd = if c1.r != c2.r {
            Channel::Red
        } else if c1.g != c2.g {
            Channel::Green
        } else {
            Channel::Blue
        };
        assert(ch_val(c1, chd) != ch_val(c2, chd));
        lemma_minmax_range(samples, chd, c1, c2);
        lemma_minmax_range(samples, wc, c1, c2);
        lemma_minmax_ch(samples, Channel::Red);
        lemma_minmax_ch(samples, Channel::Green);
        lemma_minmax_ch(samples, Channel::Blue);
    }
    // every sorted element is one of the two colors
    assert forall|i: int| 0 <= i < sorted.len() implies sorted[i] == c1 || sorted[i]
        == c2 by {
        assert(sorted.contains(sorted[i]));
        assert(sorted.to_multiset().count(sorted[i]) > 0);
        assert(samples.to_multiset().count(sorted[i]) > 0);
        assert(samples.contains(sorted[i]));
        let widx = choose|widx: int| 0 <= widx < samples.len() && samples[widx] == sorted[i];
        assert(samples[widx] == c1 || samples[widx] == c2);
    }
    let a = if v1 < v2 {
        c1
    } else {
        c2
    };
    let bcol = if v1 < v2 {
        c2
    } else {
        c1
    };
    assert((ch_val(a, wc) as int) < ch_val(bcol, wc) as int);
    assert(sorted.to_multiset().count(a) == m);
    assert(sorted.to_multiset().count(bcol) == m);
    // the lower half is all the smaller color: were some lower-half pixel
    // the larger color, sortedness would force the whole tail after it to
    // be too, giving the larger color more than half the samples
    assert forall|i: int| 0 <= i < m implies sorted[i] == a by {
        if sorted[i] == bcol {
            assert forall|j: int| i <= j < sorted.len() implies sorted[j] == bcol by {
                assert(ch_val(sorted[i], wc) <= ch_val(sorted[j], wc));
            }
            let tail = sorted.subrange(i, sorted.len() as int);
            assert(sorted =~= sorted.subrange(0, i) + tail);
            lemma_multiset_commutative(sorted.subrange(0, i), tail);
            assert(forall|j: int| 0 <= j < tail.len() ==> #[trigger] tail[j] == bcol);
            crate::color_box::lemma_count_constant(tail, bcol);
            assert(sorted.to_multiset().count(bcol) >= len - i);
            assert(false);
        }
    }
    assert forall|i: int| m <= i < sorted.len() implies sorted[i] == bcol by {
        if sorted[i] == a {
            assert forall|j: int| 0 <= j <= i implies sorted[j] == a by {
                if j < i {
                    assert(ch_val(sorted[j], wc) <= ch_val(sorted[i], wc));
                }
            }
            let head = sorted.subrange(0, i + 1);
            assert(sorted =~= head + sorted.subrange(i + 1, sorted.len() as int));
            lemma_multiset_commutative(head, sorted.subrange(i + 1, sorted.len() as int));
            assert(forall|j: int| 0 <= j < head.len() ==> #[trigger] head[j] == a);
            crate::color_box::lemma_count_constant(head, a);
            assert(sorted.to_multiset().count(a) >= i + 1);
            assert(false);
        }
    }
    assert(h0 == sorted.subrange(0, m));
    assert(h1 == sorted.subrange(m, sorted.len() as int));
    assert(forall|i: int| 0 <= i < h0.len() ==> #[trigger] h0[i] == a);
    assert(forall|i: int| 0 <= i < h1.len() ==> #[trigger] h1[i] == bcol);
    crate::color_box::lemma_avg_constant(h0, a);
    crate::color_box::lemma_avg_constant(h1, bcol);
    assert(median_cut_spec(samples, 2) =~= seq![a, bcol]);
}

/// Both channel bounds of a two-colored sequence are the channel values
/// of its two colors, so the channel range is their distance.
proof fn lemma_minmax_range(s: Seq<Rgb16>, ch: Channel, c1: Rgb16, c2: Rgb16)
    requires
        s.len() >= 1,
        forall|i: int| 0 <= i < s.len() ==> s[i] == c1 || s[i] == c2,
        s.contains(c1),
        s.contains(c2),
    ensures
        max_ch(s, ch) - min_ch(s, ch) == vstd::math::max(
            ch_val(c1, ch) as int,
            ch_val(c2, ch) as int,
        ) - vstd::math::min(ch_val(c1, ch) as int, ch_val(c2, ch) as int),
{
    lemma_minmax_ch(s, ch);
    crate::color_box::lemma_minmax_attained(s, ch);
    let i1 = choose|i: int| 0 <= i < s.len() && s[i] == c1;
    let i2 = choose|i: int| 0 <= i < s.len() && s[i] == c2;
    assert(min_ch(s, ch) <= ch_val(s[i1], ch) <= max_ch(s, ch));
    assert(min_ch(s, ch) <= ch_val(s[i2], ch) <= max_ch(s, ch));
    let ilo = choose|i: int| 0 <= i < s.len() && ch_val(#[trigger] s[i], ch) == min_ch(s, ch);
    let ihi = choose|i: int| 0 <= i < s.len() && ch_val(#[trigger] s[i], ch) == max_ch(s, ch);
    assert(s[ilo] == c1 || s[ilo] == c2);
    assert(s[ihi] == c1 || s[ihi] == c2);
}

/// A built palette always has at least one entry: an empty sample set
/// falls back to pure black, any other sample set keeps at least one box.
pub proof fn lemma_build_palette_nonempty(src: Seq<u16>, w: int, h: int, k: int)
    ensures
        build_palette_spec(src, w, h, k).len() >= 1,
{
    let samples = sample_spec(src, w, h, 50000, 512);
    if samples.len() >= 1 {
        lemma_palette_size(samples, vstd::math::max(k, 2));
    }
}

/// Palette building over a 16-bit RGBA pixel buffer: sample, then median
/// cut to at least two colors.
pub fn build_palette_median_cut_rgba16(src16: &[u16], w: usize, h: usize, k: usize) -> (palette:
    Vec<Rgb16>)
    requires
        src16@.len() == w * h * 4,
        w * h * 4 <= usize::MAX,
    ensures
        palette@ == build_palette_spec(src16@, w as int, h as int, k as int),
{
    let samples = sample_rgb16_from_rgba16(src16, w, h, 50000, 512);
    let kk: usize = if k >= 2 {
        k
    } else {
        2
    };
    median_cut_palette(samples, kk)
}


/// Which source position a destination position copies from under the
/// truncating nearest-neighbor mapping, for interleaved buffers with `c`
/// channel values per pixel and a destination `new_w` pixels wide.
pub open spec fn resize_src_index(w: int, h: int, c: int, new_w: int, new_h: int, di: int) -> int {
    let pi = di / c;
    let y = pi / new_w;
    let x = pi % new_w;
    ((y * h / new_h) * w + (x * w / new_w)) * c + di % c
}

/// Decomposition of a flat interleaved index into pixel row, pixel column
/// and channel.
proof fn lemma_flat_index(y: int, x: int, j: int, new_w: int, c: int)
    requires
        0 <= y,
        0 <= x < new_w,
        0 <= j < c,
    ensures
        (y * new_w * c + x * c + j) / c == y * new_w + x,
        (y * new_w * c + x * c + j) % c == j,
        (y * new_w + x) / new_w == y,
        (y * new_w + x) % new_w == x,
{
    let pi = y * new_w + x;
    assert(y * new_w * c + x * c + j == c * (y * new_w + x) + j) by (nonlinear_arith);
    vstd::arithmetic::div_mod::lemma_div_multiples_vanish_fancy(pi, j, c);
    vstd::arithmetic::div_mod::lemma_mod_multiples_vanish(pi, j, c);
    vstd::arithmetic::div_mod::lemma_small_mod(j as nat, c as nat);
    assert(y * new_w + x == new_w * y + x) by (nonlinear_arith);
    vstd::arithmetic::div_mod::lemma_div_multiples_vanish_fancy(y, x, new_w);
    vstd::arithmetic::div_mod::lemma_mod_multiples_vanish(y, x, new_w);
    vstd::arithmetic::div_mod::lemma_small_mod(x as nat, new_w as nat);
}

/// Nearest-neighbor resize of an interleaved pixel buffer with `C` channel
/// values per pixel. Destination pixel `(x, y)` copies source pixel
/// `(x * w / new_w, y * h / new_h)`, both coordinates truncated.
pub fn resize_interleaved_nearest<T: Copy, const C: usize>(
    src: &[T],
    w: usize,
    h: usize,
    new_w: usize,
    new_h: usize,
) -> (dst: Vec<T>)
    requires
        C >= 1,
        w >= 1,
        h >= 1,
        new_w >= 1,
        new_h >= 1,
        src@.len() == w * h * C,
        new_w * new_h * C <= usize::MAX,
        new_h * h <= usize::MAX,
        new_w * w <= usize::MAX,
        w * h * C <= usize::MAX,
    ensures
        dst@.len() == new_w * new_h * C,
        forall|di: int|
            0 <= di < dst@.len() ==> #[trigger] dst@[di] == src@[resize_src_index(
                w as int,
                h as int,
                C as int,
                new_w as int,
                new_h as int,
                di,
            )],
{
    let mut dst: Vec<T> = Vec::new();
    let mut y: usize = 0;
    while y < new_h
        invariant
            C >= 1,
            w >= 1,
            h >= 1,
            new_w >= 1,
            new_h >= 1,
            src@.len() == w * h * C,
            new_w * new_h * C <= usize::MAX,
            new_h * h <= usize::MAX,
            new_w * w <= usize::MAX,
            w * h * C <= usize::MAX,
            0 <= y <= new_h,
            dst@.len() == y * new_w * C,
            forall|di: int|
                0 <= di < dst@.len() ==> #[trigger] dst@[di] == src@[resize_src_index(
                    w as int,
                    h as int,
                    C as int,
                    new_w as int,
                    new_h as int,
                    di,
                )],
        decreases new_h - y,
    {
        proof {
            assert(y * h < new_h * h && y * new_w * C + new_w * C <= new_h * new_w * C && new_h
                * new_w * C == new_w * new_h * C) by (nonlinear_arith)
                requires
                    0 <= y < new_h,
                    h >= 1,
                    new_w >= 1,
                    C >= 1,
            ;
        }
        let sy = y * h / new_h;
        proof {
            vstd::arithmetic::div_mod::lemma_multiply_divide_lt(
                (y * h) as int,
                new_h as int,
                h as int,
            );
        }
        let mut x: usize = 0;
        while x < new_w
            invariant
                C >= 1,
                w >= 1,
                h >= 1,
                new_w >= 1,
                new_h >= 1,
                src@.len() == w * h * C,
                new_w * w <= usize::MAX,
                w * h * C <= usize::MAX,
                0 <= y < new_h,
                sy as int == (y as int) * (h as int) / (new_h as int),
                0 <= sy < h,
                y * new_w * C + new_w * C <= usize::MAX,
                0 <= x <= new_w,
                dst@.len() == y * new_w * C + x * C,
                forall|di: int|
                    0 <= di < dst@.len() ==> #[trigger] dst@[di] == src@[resize_src_index(
                        w as int,
                        h as int,
                        C as int,
                        new_w as int,
                        new_h as int,
                        di,
                    )],
            decreases new_w - x,
        {
            proof {
                assert(x * w < new_w * w && y * new_w * C + x * C + C <= y * new_w * C + new_w * C)
                    by (nonlinear_arith)
                    requires
                        0 <= x < new_w,
                        w >= 1,
                        C >= 1,
                        y >= 0,
                ;
            }
            let sx = x * w / new_w;
            proof {
                vstd::arithmetic::div_mod::lemma_multiply_divide_lt(
                    (x * w) as int,
                    new_w as int,
                    w as int,
                );
                assert((sy * w + sx) * C + C <= w * h * C && 0 <= sy * w && sy * w + sx <= (sy * w
                    + sx) * C) by (nonlinear_arith)
                    requires
                        0 <= sy < h,
                        0 <= sx < w,
                        w >= 1,
                        C >= 1,
                ;
            }
            let si = (sy * w + sx) * C;
            let mut j: usize = 0;
            while j < C
                invariant
                    C >= 1,
                    src@.len() == w * h * C,
                    0 <= y < new_h,
                    0 <= x < new_w,
                    sy as int == (y as int) * (h as int) / (new_h as int),
                    sx as int == (x as int) * (w as int) / (new_w as int),
                    si == (sy * w + sx) * C,
                    si + C <= src@.len(),
                    si + C <= usize::MAX,
                    y * new_w * C + x * C + C <= usize::MAX,
                    0 <= j <= C,
                    dst@.len() == y * new_w * C + x * C + j,
                    forall|di: int|
                        0 <= di < dst@.len() ==> #[trigger] dst@[di] == src@[resize_src_index(
                            w as int,
                            h as int,
                            C as int,
                            new_w as int,
                            new_h as int,
                            di,
                        )],
                decreases C - j,
            {
                proof {
                    lemma_flat_index(y as int, x as int, j as int, new_w as int, C as int);
                    assert(((sy as int) * w + sx) * C + j == resize_src_index(
                        w as int,
                        h as int,
                        C as int,
                        new_w as int,
                        new_h as int,
                        dst@.len() as int,
                    ));
                }
                dst.push(src[si + j]);
                j += 1;
            }
            x += 1;
            proof {
                assert(y * new_w * C + (x - 1) * C + C == y * new_w * C + x * C)
                    by (nonlinear_arith);
            }
        }
        y += 1;
        proof {
            assert((y - 1) * new_w * C + new_w * C == y * new_w * C) by (nonlinear_arith);
        }
    }
    proof {
        assert(new_h * new_w * C == new_w * new_h * C) by (nonlinear_arith);
    }
    dst
}

} // verus!
