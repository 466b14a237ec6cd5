//! Color boxes for median-cut palette building.
//!
//! A box owns a set of sampled 16-bit colors. Its score is the widest of the
//! three per-channel ranges; splitting sorts the colors along that widest
//! channel (ties broken red before green before blue) and bisects at the
//! midpoint, so the larger half of an odd-length box goes to the second
//! partition.

use vstd::prelude::*;
use vstd::seq_lib::lemma_multiset_commutative;
use crate::rgb16::Rgb16;

verus! {

/// The three color channels, in tie-break priority order.
#[derive(Clone, Copy, Debug, PartialEq, Eq, Structural)]
pub enum Channel {
    Red,
    Green,
    Blue,
}

/// The value a color has on one channel.
pub open spec fn ch_val(c: Rgb16, ch: Channel) -> u16 {
    match ch {
        Channel::Red => c.r,
        Channel::Green => c.g,
        Channel::Blue => c.b,
    }
}

/// Smallest value of a channel over a sequence; 65535 on the empty sequence.
pub open spec fn min_ch(s: Seq<Rgb16>, ch: Channel) -> int
    decreases s.len(),
{
    if s.len() == 0 {
        65535
    } else {
        let m = min_ch(s.drop_last(), ch);
        if (ch_val(s.last(), ch) as int) < m {
            ch_val(s.last(), ch) as int
        } else {
            m
        }
    }
}

/// Largest value of a channel over a sequence; 0 on the empty sequence.
pub open spec fn max_ch(s: Seq<Rgb16>, ch: Channel) -> int
    decreases s.len(),
{
    if s.len() == 0 {
        0
    } else {
        let m = max_ch(s.drop_last(), ch);
        if (ch_val(s.last(), ch) as int) > m {
            ch_val(s.last(), ch) as int
        } else {
            m
        }
    }
}

/// Sum of a channel over a sequence.
pub open spec fn sum_ch(s: Seq<Rgb16>, ch: Channel) -> int
    decreases s.len(),
{
    if s.len() == 0 {
        0
    } else {
        sum_ch(s.drop_last(), ch) + ch_val(s.last(), ch)
    }
}

/// The channel along which the colors spread widest; ties go to red over
/// green and blue, and to green over blue.
pub open spec fn widest_channel(s: Seq<Rgb16>) -> Channel {
    let dr = max_ch(s, Channel::Red) - min_ch(s, Channel::Red);
    let dg = max_ch(s, Channel::Green) - min_ch(s, Channel::Green);
    let db = max_ch(s, Channel::Blue) - min_ch(s, Channel::Blue);
    if dr >= dg && dr >= db {
        Channel::Red
    } else if dg >= db {
        Channel::Green
    } else {
        Channel::Blue
    }
}

/// A box's score: its widest channel range.
pub open spec fn score_spec(s: Seq<Rgb16>) -> int {
    let dr = max_ch(s, Channel::Red) - min_ch(s, Channel::Red);
    let dg = max_ch(s, Channel::Green) - min_ch(s, Channel::Green);
    let db = max_ch(s, Channel::Blue) - min_ch(s, Channel::Blue);
    if dr >= dg && dr >= db {
        dr
    } else if dg >= db {
        dg
    } else {
        db
    }
}

/// Per-channel truncating mean; the denominator is at least 1 so that the
/// empty sequence averages to black instead of dividing by zero.
pub open spec fn avg_spec(s: Seq<Rgb16>) -> Rgb16 {
    let n = if s.len() == 0 {
        1
    } else {
        s.len() as int
    };
    Rgb16 {
        r: (sum_ch(s, Channel::Red) / n) as u16,
        g: (sum_ch(s, Channel::Green) / n) as u16,
        b: (sum_ch(s, Channel::Blue) / n) as u16,
    }
}

/// Every element lies between the channel minimum and maximum, and both
/// bounds stay inside the 16-bit range.
pub proof fn lemma_minmax_ch(s: Seq<Rgb16>, ch: Channel)
    ensures
        0 <= min_ch(s, ch) <= 65535,
        0 <= max_ch(s, ch) <= 65535,
        forall|i: int|
            0 <= i < s.len() ==> min_ch(s, ch) <= ch_val(#[trigger] s[i], ch) <= max_ch(s, ch),
        s.len() > 0 ==> min_ch(s, ch) <= max_ch(s, ch),
    decreases s.len(),
{
    if s.len() > 0 {
        lemma_minmax_ch(s.drop_last(), ch);
        assert forall|i: int|
            0 <= i < s.len() implies min_ch(s, ch) <= ch_val(#[trigger] s[i], ch) <= max_ch(
            s,
            ch,
        ) by {
            if i < s.len() - 1 {
                assert(s.drop_last()[i] == s[i]);
            } else {
                assert(s[i] == s.last());
            }
        }
    }
}

/// The channel bounds are attained by elements of the sequence.
pub proof fn lemma_minmax_attained(s: Seq<Rgb16>, ch: Channel)
    requires
        s.len() >= 1,
    ensures
        exists|i: int| 0 <= i < s.len() && ch_val(#[trigger] s[i], ch) == min_ch(s, ch),
        exists|i: int| 0 <= i < s.len() && ch_val(#[trigger] s[i], ch) == max_ch(s, ch),
    decreases s.len(),
{
    if s.len() == 1 {
        lemma_minmax_ch(s.drop_last(), ch);
        assert(ch_val(s[0], ch) == min_ch(s, ch));
        assert(ch_val(s[0], ch) == max_ch(s, ch));
    } else {
        let d = s.drop_last();
        lemma_minmax_attained(d, ch);
        if (ch_val(s.last(), ch) as int) < min_ch(d, ch) {
            assert(ch_val(s[s.len() - 1], ch) == min_ch(s, ch));
        } else {
            let i = choose|i: int| 0 <= i < d.len() && ch_val(#[trigger] d[i], ch) == min_ch(d, ch);
            assert(ch_val(s[i], ch) == min_ch(s, ch));
        }
        if (ch_val(s.last(), ch) as int) > max_ch(d, ch) {
            assert(ch_val(s[s.len() - 1], ch) == max_ch(s, ch));
        } else {
            let i = choose|i: int| 0 <= i < d.len() && ch_val(#[trigger] d[i], ch) == max_ch(d, ch);
            assert(ch_val(s[i], ch) == max_ch(s, ch));
        }
    }
}

/// A sequence of one repeated color counts its length for that color.
pub proof fn lemma_count_constant(s: Seq<Rgb16>, v: Rgb16)
    requires
        forall|i: int| 0 <= i < s.len() ==> s[i] == v,
    ensures
        s.to_multiset().count(v) == s.len(),
    decreases s.len(),
{
    broadcast use vstd::seq_lib::group_to_multiset_ensures;

    if s.len() == 0 {
        assert(!s.contains(v));
    } else {
        let d = s.drop_last();
        assert(forall|i: int| 0 <= i < d.len() ==> d[i] == #[trigger] s[i]);
        lemma_count_constant(d, v);
        assert(s =~= d.push(v));
        assert(s.to_multiset() =~= d.to_multiset().insert(v));
    }
}

/// A sequence of one repeated color averages to exactly that color.
pub proof fn lemma_avg_constant(s: Seq<Rgb16>, c: Rgb16)
    requires
        s.len() > 0,
        forall|i: int| 0 <= i < s.len() ==> s[i] == c,
    ensures
        avg_spec(s) == c,
    decreases s.len(),
{
    lemma_sum_constant(s, c);
    let n = s.len() as int;
    vstd::arithmetic::div_mod::lemma_div_multiples_vanish(c.r as int, n);
    vstd::arithmetic::div_mod::lemma_div_multiples_vanish(c.g as int, n);
    vstd::arithmetic::div_mod::lemma_div_multiples_vanish(c.b as int, n);
}

/// The channel sums of a constant sequence.
proof fn lemma_sum_constant(s: Seq<Rgb16>, c: Rgb16)
    requires
        forall|i: int| 0 <= i < s.len() ==> s[i] == c,
    ensures
        sum_ch(s, Channel::Red) == s.len() * (c.r as int),
        sum_ch(s, Channel::Green) == s.len() * (c.g as int),
        sum_ch(s, Channel::Blue) == s.len() * (c.b as int),
    decreases s.len(),
{
    if s.len() > 0 {
        lemma_sum_constant(s.drop_last(), c);
        assert((s.len() - 1) * (c.r as int) + (c.r as int) == s.len() * (c.r as int))
            by (nonlinear_arith);
        assert((s.len() - 1) * (c.g as int) + (c.g as int) == s.len() * (c.g as int))
            by (nonlinear_arith);
        assert((s.len() - 1) * (c.b as int) + (c.b as int) == s.len() * (c.b as int))
            by (nonlinear_arith);
    }
}

/// Stable insertion of one color into a sequence already sorted on `ch`:
/// the new color lands after every element whose channel value is not
/// larger than its own.
pub open spec fn insert_by_channel(s: Seq<Rgb16>, x: Rgb16, ch: Channel) -> Seq<Rgb16>
    decreases s.len(),
{
    if s.len() == 0 {
        seq![x]
    } else if (ch_val(x, ch) as int) < ch_val(s.last(), ch) {
        insert_by_channel(s.drop_last(), x, ch).push(s.last())
    } else {
        s.push(x)
    }
}

/// Stable sort of the colors on one channel, defined by repeated insertion.
pub open spec fn sort_by_channel(s: Seq<Rgb16>, ch: Channel) -> Seq<Rgb16>
    decreases s.len(),
{
    if s.len() == 0 {
        s
    } else {
        insert_by_channel(sort_by_channel(s.drop_last(), ch), s.last(), ch)
    }
}

/// Non-decreasing on the given channel.
pub open spec fn sorted_by_channel(s: Seq<Rgb16>, ch: Channel) -> bool {
    forall|i: int, j: int|
        0 <= i < j < s.len() ==> ch_val(#[trigger] s[i], ch) <= ch_val(#[trigger] s[j], ch)
}

pub proof fn lemma_insert_by_channel(s: Seq<Rgb16>, x: Rgb16, ch: Channel)
    requires
        sorted_by_channel(s, ch),
    ensures
        insert_by_channel(s, x, ch).len() == s.len() + 1,
        sorted_by_channel(insert_by_channel(s, x, ch), ch),
        insert_by_channel(s, x, ch).to_multiset() =~= s.to_multiset().insert(x),
    decreases s.len(),
{
    broadcast use vstd::seq_lib::group_to_multiset_ensures;

    let out = insert_by_channel(s, x, ch);
    if s.len() == 0 {
        assert(out =~= Seq::empty().push(x));
        assert(out.to_multiset() =~= s.to_multiset().insert(x));
    } else if (ch_val(x, ch) as int) < ch_val(s.last(), ch) {
        let d = s.drop_last();
        assert(sorted_by_channel(d, ch)) by {
            assert(forall|i: int| 0 <= i < d.len() ==> d[i] == #[trigger] s[i]);
        }
        lemma_insert_by_channel(d, x, ch);
        let inner = insert_by_channel(d, x, ch);
        // every element of the inner insertion is either x or an element of d,
        // so it is bounded by the last element of s
        assert forall|i: int| 0 <= i < inner.len() implies ch_val(#[trigger] inner[i], ch) <= ch_val(
            s.last(),
            ch,
        ) by {
            assert(inner.to_multiset().contains(inner[i]));
            if inner[i] != x {
                assert(d.to_multiset().contains(inner[i]));
                let w = choose|w: int| 0 <= w < d.len() && d[w] == inner[i];
                assert(s[w] == d[w]);
            }
        }
        assert(out =~= inner.push(s.last()));
        assert(s =~= d.push(s.last()));
        assert(s.to_multiset() =~= d.to_multiset().insert(s.last()));
        assert(out.to_multiset() =~= inner.to_multiset().insert(s.last()));
        assert(out.to_multiset() =~= s.to_multiset().insert(x)) by {
            assert(inner.to_multiset() =~= d.to_multiset().insert(x));
        }
    } else {
        assert(out =~= s.push(x));
        // x is at least as large as the last element, hence at least as large
        // as every element of the sorted sequence
        assert forall|i: int| 0 <= i < s.len() implies ch_val(#[trigger] s[i], ch) <= ch_val(
            x,
            ch,
        ) by {
            if i < s.len() - 1 {
                assert(ch_val(s[i], ch) <= ch_val(s[s.len() - 1], ch));
            }
        }
    }
}

pub proof fn lemma_sort_by_channel(s: Seq<Rgb16>, ch: Channel)
    ensures
        sort_by_channel(s, ch).len() == s.len(),
        sorted_by_channel(sort_by_channel(s, ch), ch),
        sort_by_channel(s, ch).to_multiset() =~= s.to_multiset(),
    decreases s.len(),
{
    broadcast use vstd::seq_lib::group_to_multiset_ensures;

    if s.len() > 0 {
        let d = s.drop_last();
        lemma_sort_by_channel(d, ch);
        lemma_insert_by_channel(sort_by_channel(d, ch), s.last(), ch);
        assert(s =~= d.push(s.last()));
        assert(s.to_multiset() =~= d.to_multiset().insert(s.last()));
        assert(sort_by_channel(s, ch).to_multiset() =~= s.to_multiset());
    }
}

/// Inserting into a sorted sequence at the first position whose channel
/// value exceeds the new color's is the same as the stable insertion.
proof fn lemma_insert_position(s: Seq<Rgb16>, x: Rgb16, ch: Channel, p: int)
    requires
        sorted_by_channel(s, ch),
        0 <= p <= s.len(),
        forall|i: int| 0 <= i < p ==> ch_val(#[trigger] s[i], ch) <= ch_val(x, ch),
        forall|i: int| p <= i < s.len() ==> ch_val(#[trigger] s[i], ch) > ch_val(x, ch),
    ensures
        insert_by_channel(s, x, ch) =~= s.insert(p, x),
    decreases s.len(),
{
    if s.len() == 0 {
        assert(insert_by_channel(s, x, ch) =~= s.insert(0, x));
    } else if p == s.len() {
        assert(ch_val(s.last(), ch) <= ch_val(x, ch));
        assert(insert_by_channel(s, x, ch) =~= s.push(x));
        assert(s.insert(p, x) =~= s.push(x));
    } else {
        assert(ch_val(s.last(), ch) > ch_val(x, ch));
        let d = s.drop_last();
        assert(sorted_by_channel(d, ch)) by {
            assert(forall|i: int| 0 <= i < d.len() ==> d[i] == #[trigger] s[i]);
        }
        lemma_insert_position(d, x, ch, p);
        assert(insert_by_channel(s, x, ch) =~= insert_by_channel(d, x, ch).push(s.last()));
        assert(d.insert(p, x).push(s.last()) =~= s.insert(p, x));
    }
}

/// The exec value of one channel.
pub fn channel_value(c: Rgb16, ch: Channel) -> (v: u16)
    ensures
        v == ch_val(c, ch),
{
    match ch {
        Channel::Red => c.r,
        Channel::Green => c.g,
        Channel::Blue => c.b,
    }
}

/// Stable insertion sort of a color vector on one channel.
pub fn sort_colors_by_channel(v: &Vec<Rgb16>, ch: Channel) -> (out: Vec<Rgb16>)
    ensures
        out@ == sort_by_channel(v@, ch),
{
    let mut out: Vec<Rgb16> = Vec::new();
    let n: usize = v.len();
    assert(v@.take(0) =~= Seq::<Rgb16>::empty());
    for i in 0..n
        invariant
            n == v@.len(),
            out@ == sort_by_channel(v@.take(i as int), ch),
            out@.len() == i,
            sorted_by_channel(out@, ch),
    {
        let x = v[i];
        let xv = channel_value(x, ch);
        let mut p: usize = 0;
        while p < out.len() && channel_value(out[p], ch) <= xv
            invariant
                0 <= p <= out@.len(),
                forall|q: int| 0 <= q < p ==> ch_val(#[trigger] out@[q], ch) <= xv,
                sorted_by_channel(out@, ch),
            decreases out@.len() - p,
        {
            p += 1;
        }
        assert(forall|q: int|
            p <= q < out@.len() ==> ch_val(#[trigger] out@[q], ch) > ch_val(x, ch)) by {
            if p < out@.len() {
                assert(ch_val(out@[p as int], ch) > ch_val(x, ch));
            }
        }
        proof {
            lemma_insert_position(out@, x, ch, p as int);
            lemma_insert_by_channel(out@, x, ch);
            assert(v@.take(i + 1).drop_last() =~= v@.take(i as int));
            assert(v@.take(i + 1).last() == v@[i as int]);
        }
        out.insert(p, x);
    }
    proof {
        assert(v@.take(n as int) =~= v@);
    }
    out
}

/// A mutable set of sampled colors, consumed when split and terminal when
/// averaged.
pub struct ColorBox16 {
    pub colors: Vec<Rgb16>,
}

impl ColorBox16 {
    /// Per-channel minima and maxima, in the order red min, red max, green
    /// min, green max, blue min, blue max. An empty box reports the empty
    /// bounds 65535 and 0.
    pub fn ranges(&self) -> (t: (u16, u16, u16, u16, u16, u16))
        ensures
            t.0 == min_ch(self.colors@, Channel::Red),
            t.1 == max_ch(self.colors@, Channel::Red),
            t.2 == min_ch(self.colors@, Channel::Green),
            t.3 == max_ch(self.colors@, Channel::Green),
            t.4 == min_ch(self.colors@, Channel::Blue),
            t.5 == max_ch(self.colors@, Channel::Blue),
    {
        let mut rmin: u16 = u16::MAX;
        let mut rmax: u16 = 0;
        let mut gmin: u16 = u16::MAX;
        let mut gmax: u16 = 0;
        let mut bmin: u16 = u16::MAX;
        let mut bmax: u16 = 0;
        let n: usize = self.colors.len();
        assert(self.colors@.take(0) =~= Seq::<Rgb16>::empty());
        for i in 0..n
            invariant
                n == self.colors@.len(),
                rmin == min_ch(self.colors@.take(i as int), Channel::Red),
                rmax == max_ch(self.colors@.take(i as int), Channel::Red),
                gmin == min_ch(self.colors@.take(i as int), Channel::Green),
                gmax == max_ch(self.colors@.take(i as int), Channel::Green),
                bmin == min_ch(self.colors@.take(i as int), Channel::Blue),
                bmax == max_ch(self.colors@.take(i as int), Channel::Blue),
        {
            let c = self.colors[i];
            proof {
                assert(self.colors@.take(i + 1).drop_last() =~= self.colors@.take(i as int));
                assert(self.colors@.take(i + 1).last() == c);
            }
            if c.r < rmin {
                rmin = c.r;
            }
            if c.r > rmax {
                rmax = c.r;
            }
            if c.g < gmin {
                gmin = c.g;
            }
            if c.g > gmax {
                gmax = c.g;
            }
            if c.b < bmin {
                bmin = c.b;
            }
            if c.b > bmax {
                bmax = c.b;
            }
        }
        proof {
            assert(self.colors@.take(n as int) =~= self.colors@);
        }
        (rmin, rmax, gmin, gmax, bmin, bmax)
    }

    /// The widest channel range, used to rank boxes for splitting.
    pub fn score(&self) -> (s: u32)
        requires
            self.colors@.len() >= 1,
        ensures
            s == score_spec(self.colors@),
    {
        proof {
            lemma_minmax_ch(self.colors@, Channel::Red);
            lemma_minmax_ch(self.colors@, Channel::Green);
            lemma_minmax_ch(self.colors@, Channel::Blue);
        }
        let (rmin, rmax, gmin, gmax, bmin, bmax) = self.ranges();
        let dr = (rmax - rmin) as u32;
        let dg = (gmax - gmin) as u32;
        let db = (bmax - bmin) as u32;
        if dr >= dg && dr >= db {
            dr
        } else if dg >= db {
            dg
        } else {
            db
        }
    }

    /// Truncating per-channel mean over the box, in a wide integer domain.
    pub fn average(&self) -> (c: Rgb16)
        ensures
            c == avg_spec(self.colors@),
    {
        let mut sr: u128 = 0;
        let mut sg: u128 = 0;
        let mut sb: u128 = 0;
        let n_colors: usize = self.colors.len();
        assert(self.colors@.take(0) =~= Seq::<Rgb16>::empty());
        for i in 0..n_colors
            invariant
                n_colors == self.colors@.len(),
                sr == sum_ch(self.colors@.take(i as int), Channel::Red),
                sg == sum_ch(self.colors@.take(i as int), Channel::Green),
                sb == sum_ch(self.colors@.take(i as int), Channel::Blue),
                sr <= (i as int) * 65535,
                sg <= (i as int) * 65535,
                sb <= (i as int) * 65535,
        {
            let c = self.colors[i];
            proof {
                assert(self.colors@.take(i + 1).drop_last() =~= self.colors@.take(i as int));
                assert(self.colors@.take(i + 1).last() == c);
            }
            sr += c.r as u128;
            sg += c.g as u128;
            sb += c.b as u128;
        }
        proof {
            assert(self.colors@.take(n_colors as int) =~= self.colors@);
        }
        let n: u128 = if n_colors == 0 {
            1
        } else {
            n_colors as u128
        };
        proof {
            lemma_avg_div_fits(sr as int, n as int);
            lemma_avg_div_fits(sg as int, n as int);
            lemma_avg_div_fits(sb as int, n as int);
        }
        Rgb16 { r: (sr / n) as u16, g: (sg / n) as u16, b: (sb / n) as u16 }
    }

    /// Bisection along the widest channel. `None` exactly when the box has
    /// fewer than two colors; otherwise the two halves of the stable sort,
    /// which together carry every color of the box and are both non-empty.
    pub fn split(self) -> (r: Option<(ColorBox16, ColorBox16)>)
        ensures
            r is Some <==> self.colors@.len() >= 2,
            r is Some ==> {
                let sorted = sort_by_channel(self.colors@, widest_channel(self.colors@));
                let mid = self.colors@.len() as int / 2;
                &&& r->Some_0.0.colors@ == sorted.subrange(0, mid)
                &&& r->Some_0.1.colors@ == sorted.subrange(mid, sorted.len() as int)
                &&& r->Some_0.0.colors@.len() >= 1
                &&& r->Some_0.1.colors@.len() >= 1
                &&& r->Some_0.0.colors@.to_multiset().add(r->Some_0.1.colors@.to_multiset())
                    =~= self.colors@.to_multiset()
            },
    {
        if self.colors.len() < 2 {
            return None;
        }
        let ghost orig = self.colors@;
        proof {
            lemma_minmax_ch(orig, Channel::Red);
            lemma_minmax_ch(orig, Channel::Green);
            lemma_minmax_ch(orig, Channel::Blue);
        }
        let (rmin, rmax, gmin, gmax, bmin, bmax) = self.ranges();
        let dr = rmax - rmin;
        let dg = gmax - gmin;
        let db = bmax - bmin;
        let ch = if dr >= dg && dr >= db {
            Channel::Red
        } else if dg >= db {
            Channel::Green
        } else {
            Channel::Blue
        };
        assert(ch == widest_channel(orig));
        let mut sorted = sort_colors_by_channel(&self.colors, ch);
        proof {
            lemma_sort_by_channel(orig, ch);
        }
        let mid = sorted.len() / 2;
        let right = sorted.split_off(mid);
        proof {
            let s = sort_by_channel(orig, ch);
            assert(s.subrange(0, s.len() as int / 2) + s.subrange(s.len() as int / 2, s.len() as int)
                =~= s);
            lemma_multiset_commutative(
                s.subrange(0, s.len() as int / 2),
                s.subrange(s.len() as int / 2, s.len() as int),
            );
        }
        Some((ColorBox16 { colors: sorted }, ColorBox16 { colors: right }))
    }
}

/// A sum of `n` channel values divided by `n` stays a 16-bit value.
proof fn lemma_avg_div_fits(s: int, n: int)
    requires
        n >= 1,
        0 <= s <= n * 65535,
    ensures
        0 <= s / n <= 65535,
{
    vstd::arithmetic::div_mod::lemma_div_is_ordered(s, n * 65535, n);
    vstd::arithmetic::div_mod::lemma_div_multiples_vanish(65535, n);
}

} // verus!
