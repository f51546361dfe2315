use vstd::prelude::*;
use crate::color::{chan, Color, ColorChannel};
use crate::sorting::{key_le, sort_range, SortKey};
use crate::sums::{
    lemma_sum_by_le, lemma_sum_by_multiset, lemma_sum_by_push, lemma_sum_by_scale,
    lemma_sum_by_split, sum_by,
};

verus! {

/// The pixel-count weight of one entry.
pub open spec fn cnt_of(c: ColorChannel) -> int {
    c.cnt as int
}

/// The total pixel count of a range of the table.
pub open spec fn sum_cnt(s: Seq<ColorChannel>) -> int {
    sum_by(s, |c: ColorChannel| cnt_of(c))
}

/// The pixel-count-weighted sum of one channel over a range of the table.
pub open spec fn sum_chan(s: Seq<ColorChannel>, which: Color) -> int {
    sum_by(s, |c: ColorChannel| cnt_of(c) * chan(c, which) as int)
}

/// Sequences with equal multisets have equal pixel counts and channel sums.
pub proof fn lemma_sums_multiset(s1: Seq<ColorChannel>, s2: Seq<ColorChannel>, which: Color)
    requires
        s1.to_multiset() == s2.to_multiset(),
    ensures
        sum_cnt(s1) == sum_cnt(s2),
        sum_chan(s1, which) == sum_chan(s2, which),
{
    lemma_sum_by_multiset(s1, s2, |c: ColorChannel| cnt_of(c));
    lemma_sum_by_multiset(s1, s2, |c: ColorChannel| cnt_of(c) * chan(c, which) as int);
}

/// Appending one entry adds its pixel count.
pub proof fn lemma_sum_cnt_push(s: Seq<ColorChannel>, c: ColorChannel)
    ensures
        sum_cnt(s.push(c)) == sum_cnt(s) + c.cnt,
{
    lemma_sum_by_push(s, |c: ColorChannel| cnt_of(c), c);
}

/// Appending one entry adds its weighted channel value.
pub proof fn lemma_sum_chan_push(s: Seq<ColorChannel>, c: ColorChannel, which: Color)
    ensures
        sum_chan(s.push(c), which) == sum_chan(s, which) + c.cnt * chan(c, which),
{
    lemma_sum_by_push(s, |c: ColorChannel| cnt_of(c) * chan(c, which) as int, c);
}

/// A pixel-count sum is never negative.
pub proof fn lemma_sum_cnt_nonneg(s: Seq<ColorChannel>)
    ensures
        sum_cnt(s) >= 0,
    decreases s.len(),
{
    if s.len() > 0 {
        lemma_sum_cnt_nonneg(s.drop_last());
    }
}

/// When every entry counts at least one pixel, a range counts at least its
/// length.
pub proof fn lemma_sum_cnt_ge_len(s: Seq<ColorChannel>)
    requires
        forall|k: int| 0 <= k < s.len() ==> (#[trigger] s[k]).cnt >= 1,
    ensures
        sum_cnt(s) >= s.len(),
    decreases s.len(),
{
    if s.len() > 0 {
        assert(forall|k: int| 0 <= k < s.len() - 1 ==> s.drop_last()[k] == s[k]);
        lemma_sum_cnt_ge_len(s.drop_last());
    }
}

/// A pixel-count sum splits at any index.
pub proof fn lemma_sum_cnt_split(s: Seq<ColorChannel>, m: int)
    requires
        0 <= m <= s.len(),
    ensures
        sum_cnt(s) == sum_cnt(s.subrange(0, m)) + sum_cnt(s.subrange(m, s.len() as int)),
{
    lemma_sum_by_split(s, |c: ColorChannel| cnt_of(c), m);
}

/// Taking one more entry into a channel's cached bounds keeps them the exact
/// minimum and maximum of the scanned prefix.
proof fn lemma_extend_bounds(
    t: Seq<ColorChannel>,
    lower: int,
    i: int,
    plo: u8,
    phi: u8,
    nlo: u8,
    nhi: u8,
    which: Color,
)
    requires
        0 <= lower <= i < t.len(),
        nlo == (if chan(t[i], which) < plo {
            chan(t[i], which)
        } else {
            plo
        }),
        nhi == (if chan(t[i], which) > phi {
            chan(t[i], which)
        } else {
            phi
        }),
        i > lower ==> chan_bounded(t, lower, i - 1, plo, phi, which) && chan_attained(
            t,
            lower,
            i - 1,
            plo,
            which,
        ) && chan_attained(t, lower, i - 1, phi, which) && plo <= phi,
        i == lower ==> plo == 255 && phi == 0,
    ensures
        chan_bounded(t, lower, i, nlo, nhi, which),
        chan_attained(t, lower, i, nlo, which),
        chan_attained(t, lower, i, nhi, which),
        nlo <= nhi,
{
    let x = chan(t[i], which);
    if i == lower {
        assert(nlo == x && nhi == x);
        assert(lower <= i <= i && chan(t[i], which) == nlo);
        assert(chan_attained(t, lower, i, nlo, which));
        assert(chan_attained(t, lower, i, nhi, which));
    } else {
        if x < plo {
            assert(lower <= i <= i && chan(t[i], which) == nlo);
        } else {
            let k = choose|k: int| lower <= k <= i - 1 && chan(#[trigger] t[k], which) == plo;
            assert(lower <= k <= i && chan(t[k], which) == nlo);
        }
        assert(chan_attained(t, lower, i, nlo, which));
        if x > phi {
            assert(lower <= i <= i && chan(t[i], which) == nhi);
        } else {
            let k = choose|k: int| lower <= k <= i - 1 && chan(#[trigger] t[k], which) == phi;
            assert(lower <= k <= i && chan(t[k], which) == nhi);
        }
        assert(chan_attained(t, lower, i, nhi, which));
    }
}

/// A weighted channel sum of at most `255 * n` divides by `n` into a value
/// that fits a channel.
proof fn lemma_avg_bounded(s: int, n: int)
    requires
        0 <= s <= 255 * n,
        1 <= n,
    ensures
        0 <= s / n <= 255,
{
    vstd::arithmetic::div_mod::lemma_div_is_ordered(s, 255 * n, n);
    vstd::arithmetic::div_mod::lemma_div_multiples_vanish(255, n);
    vstd::arithmetic::div_mod::lemma_div_pos_is_pos(s, n);
    assert(n * 255 == 255 * n);
}

/// Averaging never leaves the channel bounds of the entries averaged: the
/// truncated pixel-count-weighted mean of a channel lies between the
/// smallest and the largest value that the channel takes in the range.
pub proof fn lemma_avg_within_bounds(s: Seq<ColorChannel>, which: Color, lo: u8, hi: u8)
    requires
        s.len() > 0,
        forall|k: int| 0 <= k < s.len() ==> (#[trigger] s[k]).cnt >= 1,
        forall|k: int| 0 <= k < s.len() ==> lo <= chan(#[trigger] s[k], which) <= hi,
    ensures
        lo as int <= sum_chan(s, which) / sum_cnt(s) <= hi as int,
{
    lemma_sum_cnt_ge_len(s);
    let n = sum_cnt(s);
    assert(n >= 1);
    assert forall|k: int| 0 <= k < s.len() implies lo as int * cnt_of(#[trigger] s[k]) <= cnt_of(
        s[k],
    ) * chan(s[k], which) as int <= hi as int * cnt_of(s[k]) by {
        assert(lo <= chan(s[k], which) <= hi);
        assert(lo as int * cnt_of(s[k]) <= cnt_of(s[k]) * chan(s[k], which) as int <= hi as int
            * cnt_of(s[k])) by (nonlinear_arith)
            requires
                lo as int <= chan(s[k], which) as int <= hi as int,
                cnt_of(s[k]) >= 1,
        ;
    }
    lemma_sum_by_le(
        s,
        |c: ColorChannel| lo as int * cnt_of(c),
        |c: ColorChannel| cnt_of(c) * chan(c, which) as int,
    );
    lemma_sum_by_le(
        s,
        |c: ColorChannel| cnt_of(c) * chan(c, which) as int,
        |c: ColorChannel| hi as int * cnt_of(c),
    );
    lemma_sum_by_scale(
        s,
        |c: ColorChannel| cnt_of(c),
        |c: ColorChannel| lo as int * cnt_of(c),
        lo as int,
    );
    lemma_sum_by_scale(
        s,
        |c: ColorChannel| cnt_of(c),
        |c: ColorChannel| hi as int * cnt_of(c),
        hi as int,
    );
    let m = sum_chan(s, which);
    assert(lo as int * n <= m <= hi as int * n);
    vstd::arithmetic::div_mod::lemma_div_is_ordered(lo as int * n, m, n);
    vstd::arithmetic::div_mod::lemma_div_is_ordered(m, hi as int * n, n);
    vstd::arithmetic::div_mod::lemma_div_multiples_vanish(lo as int, n);
    vstd::arithmetic::div_mod::lemma_div_multiples_vanish(hi as int, n);
    assert(n * lo as int == lo as int * n);
    assert(n * hi as int == hi as int * n);
}

/// One box of the partition: an inclusive index range over the color table,
/// its split generation, its total pixel count, and cached channel bounds.
#[derive(Debug, Clone, Copy, PartialEq, Eq, Structural)]
pub struct ColorBucket {
    pub lower: usize,
    pub upper: usize,
    pub level: usize,
    pub count: usize,
    pub rmin: u8,
    pub rmax: u8,
    pub gmin: u8,
    pub gmax: u8,
    pub bmin: u8,
    pub bmax: u8,
}

/// The entries of the table that a box covers: the inclusive range
/// `[lower, upper]`.
pub open spec fn covered(b: ColorBucket, table: Seq<ColorChannel>) -> Seq<ColorChannel> {
    table.subrange(b.lower as int, b.upper + 1)
}

/// The cached lower bound of one channel.
pub open spec fn lo_of(b: ColorBucket, which: Color) -> u8 {
    match which {
        Color::Red => b.rmin,
        Color::Green => b.gmin,
        Color::Blue => b.bmin,
    }
}

/// The cached upper bound of one channel.
pub open spec fn hi_of(b: ColorBucket, which: Color) -> u8 {
    match which {
        Color::Red => b.rmax,
        Color::Green => b.gmax,
        Color::Blue => b.bmax,
    }
}

/// Every covered entry's channel lies between the bounds.
pub open spec fn chan_bounded(
    table: Seq<ColorChannel>,
    lower: int,
    upper: int,
    lo: u8,
    hi: u8,
    which: Color,
) -> bool {
    forall|k: int| lower <= k <= upper ==> lo <= chan(#[trigger] table[k], which) <= hi
}

/// Some covered entry's channel equals the value.
pub open spec fn chan_attained(
    table: Seq<ColorChannel>,
    lower: int,
    upper: int,
    v: u8,
    which: Color,
) -> bool {
    exists|k: int| lower <= k <= upper && chan(#[trigger] table[k], which) == v
}

/// The cached bounds of a box are exactly the channel minima and maxima of
/// the range it covers.
pub open spec fn bounds_ok(b: ColorBucket, table: Seq<ColorChannel>) -> bool {
    &&& chan_bounded(table, b.lower as int, b.upper as int, b.rmin, b.rmax, Color::Red)
    &&& chan_bounded(table, b.lower as int, b.upper as int, b.gmin, b.gmax, Color::Green)
    &&& chan_bounded(table, b.lower as int, b.upper as int, b.bmin, b.bmax, Color::Blue)
    &&& chan_attained(table, b.lower as int, b.upper as int, b.rmin, Color::Red)
    &&& chan_attained(table, b.lower as int, b.upper as int, b.rmax, Color::Red)
    &&& chan_attained(table, b.lower as int, b.upper as int, b.gmin, Color::Green)
    &&& chan_attained(table, b.lower as int, b.upper as int, b.gmax, Color::Green)
    &&& chan_attained(table, b.lower as int, b.upper as int, b.bmin, Color::Blue)
    &&& chan_attained(table, b.lower as int, b.upper as int, b.bmax, Color::Blue)
}

/// A box that agrees with the table: a range inside it, the covered pixel
/// count, and ordered channel bounds.
pub open spec fn box_wf(b: ColorBucket, table: Seq<ColorChannel>) -> bool {
    &&& b.lower <= b.upper < table.len()
    &&& b.count == sum_cnt(covered(b, table))
    &&& b.rmin <= b.rmax
    &&& b.gmin <= b.gmax
    &&& b.bmin <= b.bmax
}

/// The pixel count accumulated from `lower` up to and including `m`.
pub open spec fn cum_cnt(t: Seq<ColorChannel>, lower: int, m: int) -> int {
    sum_cnt(t.subrange(lower, m + 1))
}

/// Where a split of the inclusive range `[lower, upper]` falls: the first
/// index whose cumulative pixel count reaches `half`, or `lower` when no
/// index below `upper` does.
pub open spec fn is_weighted_median(
    t: Seq<ColorChannel>,
    lower: int,
    upper: int,
    half: int,
    med: int,
) -> bool {
    ||| {
        &&& lower <= med < upper
        &&& cum_cnt(t, lower, med) >= half
        &&& forall|m: int| lower <= m < med ==> cum_cnt(t, lower, m) < half
    }
    ||| {
        &&& med == lower
        &&& forall|m: int| lower <= m < upper ==> cum_cnt(t, lower, m) < half
    }
}

/// The channel a box is split along: the one with the widest bounds, blue
/// winning exact ties over green, and green over red.
pub open spec fn longest_dim(b: ColorBucket) -> Color {
    let r_length = b.rmax - b.rmin;
    let g_length = b.gmax - b.gmin;
    let b_length = b.bmax - b.bmin;
    if b_length >= r_length && b_length >= g_length {
        Color::Blue
    } else if g_length >= r_length && g_length >= b_length {
        Color::Green
    } else {
        Color::Red
    }
}

impl ColorBucket {
    /// Widens the bounds before a scan of the covered range.
    fn reset_dimensions(&mut self)
        ensures
            *final(self) == (ColorBucket {
                rmin: 255u8,
                rmax: 0u8,
                gmin: 255u8,
                gmax: 0u8,
                bmin: 255u8,
                bmax: 0u8,
                count: 0usize,
                ..*old(self)
            }),
    {
        self.rmin = 255;
        self.rmax = 0;
        self.gmin = 255;
        self.gmax = 0;
        self.bmin = 255;
        self.bmax = 0;
        self.count = 0;
    }

    /// How many distinct colors the box covers.
    pub fn color_count(&self) -> (r: usize)
        requires
            self.lower <= self.upper < usize::MAX,
        ensures
            r == self.upper - self.lower + 1,
    {
        self.upper - self.lower + 1
    }

    /// Widens one channel's cached bounds to take a covered value in.
    fn larger(&mut self, in_color: u8, c_type: Color)
        ensures
            final(self).lower == old(self).lower,
            final(self).upper == old(self).upper,
            final(self).level == old(self).level,
            final(self).count == old(self).count,
            lo_of(*final(self), c_type) == (if in_color < lo_of(*old(self), c_type) {
                in_color
            } else {
                lo_of(*old(self), c_type)
            }),
            hi_of(*final(self), c_type) == (if in_color > hi_of(*old(self), c_type) {
                in_color
            } else {
                hi_of(*old(self), c_type)
            }),
            forall|w: Color|
                w != c_type ==> lo_of(*final(self), w) == lo_of(*old(self), w) && hi_of(
                    *final(self),
                    w,
                ) == hi_of(*old(self), w),
    {
        match c_type {
            Color::Red => {
                if in_color > self.rmax {
                    self.rmax = in_color;
                }
                if in_color < self.rmin {
                    self.rmin = in_color;
                }
            },
            Color::Green => {
                if in_color > self.gmax {
                    self.gmax = in_color;
                }
                if in_color < self.gmin {
                    self.gmin = in_color;
                }
            },
            Color::Blue => {
                if in_color > self.bmax {
                    self.bmax = in_color;
                }
                if in_color < self.bmin {
                    self.bmin = in_color;
                }
            },
        }
    }

    /// Rescans the covered range: accumulates its pixel count and recomputes
    /// every channel's exact bounds.  Must be re-run after the range is
    /// reordered.
    pub fn update_bounds(&mut self, colors: &Vec<ColorChannel>)
        requires
            old(self).lower <= old(self).upper < colors.len(),
            sum_cnt(covered(*old(self), colors@)) <= usize::MAX,
        ensures
            final(self).lower == old(self).lower,
            final(self).upper == old(self).upper,
            final(self).level == old(self).level,
            final(self).count == sum_cnt(covered(*final(self), colors@)),
            bounds_ok(*final(self), colors@),
            final(self).rmin <= final(self).rmax,
            final(self).gmin <= final(self).gmax,
            final(self).bmin <= final(self).bmax,
    {
        self.reset_dimensions();
        let lower = self.lower;
        let upper = self.upper;
        let ghost t = colors@;
        let mut i: usize = lower;
        while i <= upper
            invariant
                lower == self.lower <= i <= upper + 1,
                upper == self.upper < colors.len(),
                self.level == old(self).level,
                t == colors@,
                self.count == sum_cnt(t.subrange(lower as int, i as int)),
                sum_cnt(t.subrange(lower as int, upper + 1)) <= usize::MAX,
                i == lower ==> self.rmin == 255 && self.rmax == 0 && self.gmin == 255
                    && self.gmax == 0 && self.bmin == 255 && self.bmax == 0,
                i > lower ==> {
                    &&& chan_bounded(t, lower as int, i - 1, self.rmin, self.rmax, Color::Red)
                    &&& chan_bounded(t, lower as int, i - 1, self.gmin, self.gmax, Color::Green)
                    &&& chan_bounded(t, lower as int, i - 1, self.bmin, self.bmax, Color::Blue)
                    &&& chan_attained(t, lower as int, i - 1, self.rmin, Color::Red)
                    &&& chan_attained(t, lower as int, i - 1, self.rmax, Color::Red)
                    &&& chan_attained(t, lower as int, i - 1, self.gmin, Color::Green)
                    &&& chan_attained(t, lower as int, i - 1, self.gmax, Color::Green)
                    &&& chan_attained(t, lower as int, i - 1, self.bmin, Color::Blue)
                    &&& chan_attained(t, lower as int, i - 1, self.bmax, Color::Blue)
                    &&& self.rmin <= self.rmax
                    &&& self.gmin <= self.gmax
                    &&& self.bmin <= self.bmax
                },
            decreases upper + 1 - i,
        {
            let c = colors[i];
            proof {
                let pre = t.subrange(lower as int, i as int);
                let post = t.subrange(lower as int, i + 1);
                assert(post =~= pre.push(t[i as int]));
                lemma_sum_cnt_push(pre, t[i as int]);
                let whole = t.subrange(lower as int, upper + 1);
                lemma_sum_cnt_split(whole, i + 1 - lower);
                assert(whole.subrange(0, i + 1 - lower) =~= post);
                lemma_sum_cnt_nonneg(whole.subrange(i + 1 - lower, whole.len() as int));
                lemma_sum_cnt_nonneg(pre);
                assert(c.cnt >= 0);
            }
            self.count = self.count + c.cnt;
            let ghost prev = *self;
            self.larger(c.red, Color::Red);
            self.larger(c.grn, Color::Green);
            self.larger(c.blu, Color::Blue);
            proof {
                assert(chan(t[i as int], Color::Red) == c.red);
                assert(chan(t[i as int], Color::Green) == c.grn);
                assert(chan(t[i as int], Color::Blue) == c.blu);
                lemma_extend_bounds(
                    t,
                    lower as int,
                    i as int,
                    prev.rmin,
                    prev.rmax,
                    self.rmin,
                    self.rmax,
                    Color::Red,
                );
                lemma_extend_bounds(
                    t,
                    lower as int,
                    i as int,
                    prev.gmin,
                    prev.gmax,
                    self.gmin,
                    self.gmax,
                    Color::Green,
                );
                lemma_extend_bounds(
                    t,
                    lower as int,
                    i as int,
                    prev.bmin,
                    prev.bmax,
                    self.bmin,
                    self.bmax,
                    Color::Blue,
                );
            }
            i = i + 1;
        }
    }

    /// Builds a box over an inclusive range and scans its bounds.
    pub fn new(lower: usize, upper: usize, level: usize, colors: &Vec<ColorChannel>) -> (b:
        ColorBucket)
        requires
            lower <= upper < colors.len(),
            sum_cnt(colors@.subrange(lower as int, upper + 1)) <= usize::MAX,
        ensures
            b.lower == lower,
            b.upper == upper,
            b.level == level,
            b.count == sum_cnt(covered(b, colors@)),
            bounds_ok(b, colors@),
            b.rmin <= b.rmax,
            b.gmin <= b.gmax,
            b.bmin <= b.bmax,
    {
        let mut bucket = ColorBucket {
            lower,
            upper,
            level,
            count: 0,
            rmin: 0,
            rmax: 0,
            gmin: 0,
            gmax: 0,
            bmin: 0,
            bmax: 0,
        };
        bucket.update_bounds(colors);
        bucket
    }

    /// Sorts the covered range along the chosen channel, then walks it from
    /// `lower`, accumulating pixel counts, and returns the first index whose
    /// running total reaches half the box's pixel count — or `lower` when no
    /// index below `upper` does.
    pub fn find_median(&self, longest_dimension: Color, colors: &mut Vec<ColorChannel>) -> (med:
        usize)
        requires
            self.lower < self.upper < old(colors).len(),
            sum_cnt(covered(*self, old(colors)@)) <= usize::MAX,
        ensures
            final(colors).len() == old(colors).len(),
            forall|k: int|
                0 <= k < final(colors).len() && !(self.lower <= k <= self.upper)
                    ==> final(colors)@[k] == old(colors)@[k],
            covered(*self, final(colors)@).to_multiset() == covered(
                *self,
                old(colors)@,
            ).to_multiset(),
            forall|a: int, b: int|
                self.lower <= a <= b <= self.upper ==> key_le(
                    SortKey::Chan(longest_dimension),
                    final(colors)@[a],
                    final(colors)@[b],
                ),
            self.lower <= med < self.upper,
            is_weighted_median(
                final(colors)@,
                self.lower as int,
                self.upper as int,
                (self.count / 2) as int,
                med as int,
            ),
    {
        sort_range(colors, self.lower, self.upper, SortKey::Chan(longest_dimension));
        let ghost t = colors@;
        let lower = self.lower;
        let upper = self.upper;
        proof {
            lemma_sums_multiset(covered(*self, t), covered(*self, old(colors)@), Color::Red);
        }
        let half = self.count / 2;
        let mut pixel_num: usize = 0;
        let mut median: usize = lower;
        while median < upper
            invariant
                lower <= median <= upper < colors.len(),
                t == colors@,
                t.len() == old(colors)@.len(),
                lower == self.lower,
                upper == self.upper,
                half == self.count / 2,
                forall|k: int|
                    0 <= k < t.len() && !(lower <= k <= upper) ==> t[k] == old(colors)@[k],
                covered(*self, t).to_multiset() == covered(*self, old(colors)@).to_multiset(),
                forall|a: int, b: int|
                    lower <= a <= b <= upper ==> key_le(
                        SortKey::Chan(longest_dimension),
                        t[a],
                        t[b],
                    ),
                pixel_num == sum_cnt(t.subrange(lower as int, median as int)),
                sum_cnt(t.subrange(lower as int, upper + 1)) <= usize::MAX,
                forall|m: int| lower <= m < median ==> cum_cnt(t, lower as int, m) < half,
            decreases upper - median,
        {
            proof {
                let pre = t.subrange(lower as int, median as int);
                let post = t.subrange(lower as int, median + 1);
                assert(post =~= pre.push(t[median as int]));
                lemma_sum_cnt_push(pre, t[median as int]);
                let whole = t.subrange(lower as int, upper + 1);
                lemma_sum_cnt_split(whole, median + 1 - lower);
                assert(whole.subrange(0, median + 1 - lower) =~= post);
                lemma_sum_cnt_nonneg(whole.subrange(median + 1 - lower, whole.len() as int));
                lemma_sum_cnt_nonneg(pre);
            }
            pixel_num = pixel_num + colors[median].cnt;
            if pixel_num >= half {
                return median;
            }
            median = median + 1;
        }
        self.lower
    }

    /// Splits the box at the weighted median of its longest channel: the box
    /// shrinks to the lower part, a new sibling takes the upper part, both
    /// one generation deeper, and both rescan their bounds.  A box covering
    /// fewer than two distinct colors is left alone.
    pub fn split_box(&mut self, colors: &mut Vec<ColorChannel>) -> (r: Option<ColorBucket>)
        requires
            old(self).lower <= old(self).upper < old(colors).len(),
            sum_cnt(covered(*old(self), old(colors)@)) <= usize::MAX,
            old(self).level < usize::MAX,
            old(self).rmin <= old(self).rmax,
            old(self).gmin <= old(self).gmax,
            old(self).bmin <= old(self).bmax,
        ensures
            final(colors).len() == old(colors).len(),
            forall|k: int|
                0 <= k < final(colors).len() && !(old(self).lower <= k <= old(self).upper)
                    ==> final(colors)@[k] == old(colors)@[k],
            covered(*old(self), final(colors)@).to_multiset() == covered(
                *old(self),
                old(colors)@,
            ).to_multiset(),
            (old(self).lower == old(self).upper) <==> (r is None),
            r is None ==> *final(self) == *old(self) && final(colors)@ == old(colors)@,
            r matches Some(nb) ==> {
                &&& final(self).lower == old(self).lower
                &&& final(self).lower <= final(self).upper < old(self).upper
                &&& nb.lower == final(self).upper + 1
                &&& nb.upper == old(self).upper
                &&& final(self).level == old(self).level + 1
                &&& nb.level == old(self).level + 1
                &&& box_wf(*final(self), final(colors)@)
                &&& box_wf(nb, final(colors)@)
                &&& bounds_ok(*final(self), final(colors)@)
                &&& bounds_ok(nb, final(colors)@)
                &&& final(self).count + nb.count == sum_cnt(covered(*old(self), old(colors)@))
                &&& forall|a: int, b: int|
                    old(self).lower <= a <= b <= old(self).upper ==> key_le(
                        SortKey::Chan(longest_dim(*old(self))),
                        final(colors)@[a],
                        final(colors)@[b],
                    )
                &&& is_weighted_median(
                    final(colors)@,
                    old(self).lower as int,
                    old(self).upper as int,
                    (old(self).count / 2) as int,
                    final(self).upper as int,
                )
            },
    {
        if self.color_count() < 2 {
            None
        } else {
            let ghost orig = *self;
            let lower = self.lower;
            let old_upper = self.upper;
            let longest_dimension = self.get_longest_color();
            let med = self.find_median(longest_dimension, colors);
            let ghost t = colors@;
            proof {
                lemma_sums_multiset(covered(orig, t), covered(orig, old(colors)@), Color::Red);
                let whole = t.subrange(lower as int, old_upper + 1);
                lemma_sum_cnt_split(whole, med + 1 - lower);
                assert(whole.subrange(0, med + 1 - lower) =~= t.subrange(lower as int, med + 1));
                assert(whole.subrange(med + 1 - lower, whole.len() as int) =~= t.subrange(
                    med + 1,
                    old_upper + 1,
                ));
                lemma_sum_cnt_nonneg(t.subrange(lower as int, med + 1));
                lemma_sum_cnt_nonneg(t.subrange(med + 1, old_upper + 1));
            }
            let next_level = self.level + 1;
            let new_box = ColorBucket::new(med + 1, old_upper, next_level, colors);
            self.upper = med;
            self.level = next_level;
            self.update_bounds(colors);
            Some(new_box)
        }
    }

    /// Reduces the covered range to one entry: each channel becomes the
    /// pixel-count-weighted mean of that channel, truncated, and the count
    /// becomes the range's total pixel count.
    pub fn avg_color(&self, colors: &Vec<ColorChannel>) -> (r: ColorChannel)
        requires
            self.lower <= self.upper < colors.len(),
            sum_cnt(covered(*self, colors@)) <= usize::MAX,
            forall|k: int|
                self.lower <= k <= self.upper ==> (#[trigger] colors@[k]).cnt >= 1,
        ensures
            r.cnt == sum_cnt(covered(*self, colors@)),
            r.cnt >= 1,
            r.red as int == sum_chan(covered(*self, colors@), Color::Red) / sum_cnt(
                covered(*self, colors@),
            ),
            r.grn as int == sum_chan(covered(*self, colors@), Color::Green) / sum_cnt(
                covered(*self, colors@),
            ),
            r.blu as int == sum_chan(covered(*self, colors@), Color::Blue) / sum_cnt(
                covered(*self, colors@),
            ),
            r.rgb == crate::color::pack_rgb(r.red, r.grn, r.blu),
            forall|lo: u8, hi: u8|
                chan_bounded(colors@, self.lower as int, self.upper as int, lo, hi, Color::Red)
                    ==> lo <= r.red <= hi,
            forall|lo: u8, hi: u8|
                chan_bounded(colors@, self.lower as int, self.upper as int, lo, hi, Color::Green)
                    ==> lo <= r.grn <= hi,
            forall|lo: u8, hi: u8|
                chan_bounded(colors@, self.lower as int, self.upper as int, lo, hi, Color::Blue)
                    ==> lo <= r.blu <= hi,
    {
        let lower = self.lower;
        let upper = self.upper;
        let ghost t = colors@;
        let mut r_sum: u128 = 0;
        let mut g_sum: u128 = 0;
        let mut b_sum: u128 = 0;
        let mut n: usize = 0;
        let mut i: usize = lower;
        while i <= upper
            invariant
                lower <= i <= upper + 1,
                upper < colors.len(),
                t == colors@,
                n == sum_cnt(t.subrange(lower as int, i as int)),
                r_sum == sum_chan(t.subrange(lower as int, i as int), Color::Red),
                g_sum == sum_chan(t.subrange(lower as int, i as int), Color::Green),
                b_sum == sum_chan(t.subrange(lower as int, i as int), Color::Blue),
                r_sum <= 255 * n,
                g_sum <= 255 * n,
                b_sum <= 255 * n,
                sum_cnt(t.subrange(lower as int, upper + 1)) <= usize::MAX,
            decreases upper + 1 - i,
        {
            let c = colors[i];
            proof {
                let pre = t.subrange(lower as int, i as int);
                let post = t.subrange(lower as int, i + 1);
                assert(post =~= pre.push(t[i as int]));
                lemma_sum_cnt_push(pre, t[i as int]);
                lemma_sum_chan_push(pre, t[i as int], Color::Red);
                lemma_sum_chan_push(pre, t[i as int], Color::Green);
                lemma_sum_chan_push(pre, t[i as int], Color::Blue);
                let whole = t.subrange(lower as int, upper + 1);
                lemma_sum_cnt_split(whole, i + 1 - lower);
                assert(whole.subrange(0, i + 1 - lower) =~= post);
                lemma_sum_cnt_nonneg(whole.subrange(i + 1 - lower, whole.len() as int));
                lemma_sum_cnt_nonneg(pre);
                assert(c.cnt * c.red <= 255 * c.cnt && c.cnt * c.grn <= 255 * c.cnt && c.cnt
                    * c.blu <= 255 * c.cnt) by (nonlinear_arith)
                    requires
                        c.red <= 255 && c.grn <= 255 && c.blu <= 255 && c.cnt >= 0,
                ;
            }
            r_sum = r_sum + (c.cnt as u128) * (c.red as u128);
            g_sum = g_sum + (c.cnt as u128) * (c.grn as u128);
            b_sum = b_sum + (c.cnt as u128) * (c.blu as u128);
            n = n + c.cnt;
            i = i + 1;
        }
        proof {
            assert(t.subrange(lower as int, upper + 1) =~= covered(*self, t));
            assert forall|k: int| 0 <= k < covered(*self, t).len() implies (#[trigger] covered(
                *self,
                t,
            )[k]).cnt >= 1 by {
                assert(covered(*self, t)[k] == t[lower + k]);
            }
            lemma_sum_cnt_ge_len(covered(*self, t));
            lemma_avg_bounded(r_sum as int, n as int);
            lemma_avg_bounded(g_sum as int, n as int);
            lemma_avg_bounded(b_sum as int, n as int);
            let cov = covered(*self, t);
            assert forall|lo: u8, hi: u8, which: Color|
                chan_bounded(colors@, self.lower as int, self.upper as int, lo, hi, which)
                implies lo as int <= sum_chan(cov, which) / sum_cnt(cov) <= hi as int by {
                assert(chan_bounded(t, lower as int, upper as int, lo, hi, which));
                assert forall|k: int| 0 <= k < cov.len() implies lo <= chan(
                    #[trigger] cov[k],
                    which,
                ) <= hi by {
                    assert(cov[k] == t[lower + k]);
                    assert(t[lower + k].cnt >= 1);
                }
                lemma_avg_within_bounds(cov, which, lo, hi);
            }
        }
        let avg_r = (r_sum / (n as u128)) as u8;
        let avg_g = (g_sum / (n as u128)) as u8;
        let avg_b = (b_sum / (n as u128)) as u8;
        ColorChannel::new_colors(avg_r, avg_g, avg_b, n)
    }

    /// The channel the next split happens along: the widest one, blue
    /// winning ties over green and green over red.
    pub fn get_longest_color(&self) -> (r: Color)
        requires
            self.rmin <= self.rmax,
            self.gmin <= self.gmax,
            self.bmin <= self.bmax,
        ensures
            r == longest_dim(*self),
    {
        let r_length = self.rmax - self.rmin;
        let g_length = self.gmax - self.gmin;
        let b_length = self.bmax - self.bmin;
        if b_length >= r_length && b_length >= g_length {
            Color::Blue
        } else if g_length >= r_length && g_length >= b_length {
            Color::Green
        } else {
            Color::Red
        }
    }
}

} // verus!
