use vstd::prelude::*;
use vstd::seq_lib::group_to_multiset_ensures;
use vstd::multiset::group_multiset_axioms;
use crate::color::mask24;
use crate::sorting::sort_words;
use crate::sums::{lemma_sum_by_push, sum_by};

verus! {

/// The input words with the alpha byte of each masked out.
pub open spec fn masked(pixels: Seq<u32>) -> Seq<u32> {
    pixels.map_values(|p: u32| mask24(p))
}

/// How many words of a sequence hold the value `v`.
pub open spec fn occ(s: Seq<u32>, v: u32) -> nat {
    s.to_multiset().count(v)
}

/// How many distinct colors the image holds, once the alpha byte is gone.
pub open spec fn distinct_colors(pixels: Seq<u32>) -> nat {
    masked(pixels).to_set().len()
}

/// The sum of a sequence of counts.
pub open spec fn sum_counts(s: Seq<usize>) -> int {
    sum_by(s, |c: usize| c as int)
}

/// What a histogram of `pixels` is: the distinct masked colors in strictly
/// ascending order, each beside the number of words that carry it, and no
/// color missing.
pub open spec fn histogram_of(pixels: Seq<u32>, colors: Seq<u32>, counts: Seq<usize>) -> bool {
    &&& colors.len() == counts.len()
    &&& forall|i: int, j: int| 0 <= i < j < colors.len() ==> colors[i] < colors[j]
    &&& forall|i: int| 0 <= i < colors.len() ==> mask24(#[trigger] colors[i]) == colors[i]
    &&& forall|i: int|
        0 <= i < counts.len() ==> (#[trigger] counts[i]) as nat == occ(masked(pixels), colors[i])
            && counts[i] >= 1
    &&& forall|v: u32| occ(masked(pixels), v) > 0 ==> colors.contains(v)
}

/// The deduplicated color table of one image: the distinct packed colors,
/// ascending, and how many pixels carry each.
pub struct Histogram {
    pub color_vec: Vec<u32>,
    pub count_vec: Vec<usize>,
}

impl Histogram {
    /// Wraps an already-built color table.
    pub fn new(colors: Vec<u32>, counts: Vec<usize>) -> (h: Histogram)
        ensures
            h.color_vec == colors,
            h.count_vec == counts,
    {
        Histogram { color_vec: colors, count_vec: counts }
    }

    /// Builds the histogram of an image: masks the alpha byte of every word,
    /// sorts the copy, and counts consecutive equal runs.
    pub fn new_pixels(pixels: &[u32]) -> (h: Histogram)
        ensures
            histogram_of(pixels@, h.color_vec@, h.count_vec@),
            sum_counts(h.count_vec@) == pixels@.len(),
    {
        broadcast use group_to_multiset_ensures;
        broadcast use group_multiset_axioms;

        let n = pixels.len();
        let mut pixels_copy: Vec<u32> = Vec::new();
        let mut idx: usize = 0;
        while idx < n
            invariant
                idx <= n == pixels@.len(),
                pixels_copy@.len() == idx,
                forall|k: int| 0 <= k < idx ==> pixels_copy@[k] == mask24(pixels@[k]),
            decreases n - idx,
        {
            pixels_copy.push(pixels[idx] & 0x00FF_FFFF);
            idx = idx + 1;
        }
        proof {
            assert(pixels_copy@ =~= masked(pixels@));
        }
        sort_words(&mut pixels_copy);
        let ghost s = pixels_copy@;
        proof {
            assert(s.to_multiset() == masked(pixels@).to_multiset());
            assert(forall|v: u32| occ(s, v) == occ(masked(pixels@), v));
            crate::sums::lemma_multiset_elems(masked(pixels@), s);
            assert forall|k: int| 0 <= k < s.len() implies mask24(#[trigger] s[k]) == s[k] by {
                assert(masked(pixels@).contains(s[k]));
                let w = choose|w: int|
                    0 <= w < masked(pixels@).len() && masked(pixels@)[w] == s[k];
                assert(s[k] == mask24(pixels@[w]));
                crate::color::lemma_mask24_idempotent(pixels@[w]);
            }
        }

        let mut color_vec: Vec<u32> = Vec::new();
        let mut count_vec: Vec<usize> = Vec::new();
        let len = pixels_copy.len();
        let mut j: usize = 0;
        while j < len
            invariant
                j <= len == s.len(),
                pixels_copy@ == s,
                forall|a: int, b: int| 0 <= a <= b < s.len() ==> s[a] <= s[b],
                forall|k: int| 0 <= k < s.len() ==> mask24(#[trigger] s[k]) == s[k],
                forall|k: int|
                    0 <= k < color_vec@.len() ==> mask24(#[trigger] color_vec@[k])
                        == color_vec@[k],
                color_vec@.len() == count_vec@.len(),
                sum_counts(count_vec@) == j,
                j == 0 <==> color_vec@.len() == 0,
                j > 0 ==> color_vec@.last() == s[j - 1],
                forall|a: int, b: int|
                    0 <= a < b < color_vec@.len() ==> color_vec@[a] < color_vec@[b],
                forall|k: int|
                    0 <= k < count_vec@.len() ==> (#[trigger] count_vec@[k]) as nat == occ(
                        s.subrange(0, j as int),
                        color_vec@[k],
                    ) && 1 <= count_vec@[k] <= j,
                forall|v: u32| occ(s.subrange(0, j as int), v) > 0 ==> color_vec@.contains(v),
            decreases len - j,
        {
            let p = pixels_copy[j];
            let ghost pre = s.subrange(0, j as int);
            let ghost post = s.subrange(0, j + 1);
            proof {
                assert(post.drop_last() =~= pre);
                assert(post =~= pre.push(p));
                lemma_occ_push(pre, p);
                assert(forall|v: u32| v != p ==> occ(post, v) == occ(pre, v));
                assert(occ(post, p) == occ(pre, p) + 1);
            }
            let fresh = if color_vec.len() == 0 {
                true
            } else {
                p != color_vec[color_vec.len() - 1]
            };
            if fresh {
                proof {
                    if j > 0 {
                        assert(s[j - 1] <= s[j as int]);
                        assert(color_vec@.last() == s[j - 1]);
                        assert(forall|k: int|
                            0 <= k < color_vec@.len() ==> #[trigger] color_vec@[k] <= s[j - 1]);
                    }
                    assert(!color_vec@.contains(p));
                    assert(occ(pre, p) == 0) by {
                        if occ(pre, p) > 0 {
                            assert(color_vec@.contains(p));
                        }
                    }
                }
                let ghost old_colors = color_vec@;
                let ghost old_counts = count_vec@;
                color_vec.push(p);
                count_vec.push(1);
                proof {
                    lemma_sum_by_push(old_counts, |c: usize| c as int, 1usize);
                    assert(count_vec@.drop_last() =~= old_counts);
                    assert forall|v: u32| occ(post, v) > 0 implies color_vec@.contains(v) by {
                        if v == p {
                            assert(color_vec@[color_vec@.len() - 1] == p);
                        } else {
                            assert(occ(pre, v) > 0);
                            assert(old_colors.contains(v));
                            let w = choose|w: int|
                                0 <= w < old_colors.len() && old_colors[w] == v;
                            assert(color_vec@[w] == v);
                        }
                    }
                }
            } else {
                let li = count_vec.len() - 1;
                let c = count_vec[li];
                proof {
                    assert(color_vec@[li as int] == color_vec@.last());
                    assert(forall|k: int|
                        0 <= k < color_vec@.len() - 1 ==> #[trigger] color_vec@[k] < p);
                }
                let ghost old_counts = count_vec@;
                count_vec.set(li, c + 1);
                proof {
                    lemma_sum_counts_update(old_counts, li as int, (c + 1) as usize);
                    assert forall|v: u32| occ(post, v) > 0 implies color_vec@.contains(v) by {
                        if v == p {
                            assert(color_vec@[li as int] == p);
                        } else {
                            assert(occ(pre, v) > 0);
                        }
                    }
                }
            }
            j = j + 1;
        }
        proof {
            assert(s.subrange(0, len as int) =~= s);
            assert(masked(pixels@).len() == pixels@.len());
        }
        Histogram { color_vec, count_vec }
    }
}

/// Appending a word raises its count by one and no other.
pub proof fn lemma_occ_push(s: Seq<u32>, p: u32)
    ensures
        occ(s.push(p), p) == occ(s, p) + 1,
        forall|v: u32| v != p ==> occ(s.push(p), v) == occ(s, v),
{
    broadcast use group_to_multiset_ensures;
    broadcast use group_multiset_axioms;

    assert(s.push(p).to_multiset() =~= s.to_multiset().insert(p));
}

/// Updating one count changes the sum by the difference.
proof fn lemma_sum_counts_update(s: Seq<usize>, i: int, v: usize)
    requires
        0 <= i < s.len(),
    ensures
        sum_counts(s.update(i, v)) == sum_counts(s) - s[i] + v,
    decreases s.len(),
{
    if i == s.len() - 1 {
        assert(s.update(i, v).drop_last() =~= s.drop_last());
        assert(s.update(i, v).last() == v);
    } else {
        assert(s.update(i, v).drop_last() =~= s.drop_last().update(i, v));
        assert(s.update(i, v).last() == s.last());
        lemma_sum_counts_update(s.drop_last(), i, v);
    }
}

/// A histogram has exactly one row per distinct color of the image.
pub proof fn lemma_histogram_len(pixels: Seq<u32>, colors: Seq<u32>, counts: Seq<usize>)
    requires
        histogram_of(pixels, colors, counts),
    ensures
        colors.len() == distinct_colors(pixels),
{
    broadcast use group_to_multiset_ensures;

    assert forall|v: u32| colors.to_set().contains(v) implies masked(pixels).to_set().contains(
        v,
    ) by {
        let i = choose|i: int| 0 <= i < colors.len() && colors[i] == v;
        assert(counts[i] as nat == occ(masked(pixels), v));
        assert(occ(masked(pixels), v) > 0);
        assert(masked(pixels).contains(v));
    }
    assert forall|v: u32| masked(pixels).to_set().contains(v) implies colors.to_set().contains(
        v,
    ) by {
        assert(masked(pixels).contains(v));
        assert(occ(masked(pixels), v) > 0);
        assert(colors.contains(v));
    }
    assert(colors.to_set() =~= masked(pixels).to_set());
    lemma_nodup(colors);
    colors.unique_seq_to_set();
}

/// One image has one histogram: any two color tables that both satisfy
/// `histogram_of` for the same pixels are identical.
pub proof fn lemma_histogram_unique(
    pixels: Seq<u32>,
    colors1: Seq<u32>,
    counts1: Seq<usize>,
    colors2: Seq<u32>,
    counts2: Seq<usize>,
)
    requires
        histogram_of(pixels, colors1, counts1),
        histogram_of(pixels, colors2, counts2),
    ensures
        colors1 == colors2,
        counts1 == counts2,
{
    broadcast use group_to_multiset_ensures;
    broadcast use group_multiset_axioms;

    let leq = |a: u32, b: u32| a <= b;
    assert(vstd::relations::total_ordering(leq)) by {
        assert(vstd::relations::reflexive(leq));
        assert(vstd::relations::antisymmetric(leq));
        assert(vstd::relations::transitive(leq));
        assert(vstd::relations::strongly_connected(leq));
    }
    lemma_nodup(colors1);
    lemma_nodup(colors2);
    colors1.lemma_multiset_has_no_duplicates();
    colors2.lemma_multiset_has_no_duplicates();
    assert forall|v: u32| #![all_triggers] true implies colors1.to_multiset().count(v)
        == colors2.to_multiset().count(v) by {
        if colors1.contains(v) {
            let i = choose|i: int| 0 <= i < colors1.len() && colors1[i] == v;
            assert(counts1[i] as nat == occ(masked(pixels), v));
            assert(occ(masked(pixels), v) > 0);
            assert(colors2.contains(v));
            assert(colors1.to_multiset().count(v) == 1);
            assert(colors2.to_multiset().count(v) == 1);
        } else if colors2.contains(v) {
            let i = choose|i: int| 0 <= i < colors2.len() && colors2[i] == v;
            assert(counts2[i] as nat == occ(masked(pixels), v));
            assert(occ(masked(pixels), v) > 0);
            assert(colors1.contains(v));
        } else {
            assert(colors1.to_multiset().count(v) == 0);
            assert(colors2.to_multiset().count(v) == 0);
        }
    }
    assert(colors1.to_multiset() =~= colors2.to_multiset());
    assert(vstd::relations::sorted_by(colors1, leq)) by {
        reveal(vstd::relations::sorted_by);
    }
    assert(vstd::relations::sorted_by(colors2, leq)) by {
        reveal(vstd::relations::sorted_by);
    }
    vstd::seq_lib::lemma_sorted_unique(colors1, colors2, leq);
    assert(colors1 =~= colors2);
    assert(counts1 =~= counts2);
}

/// Strictly ascending colors never repeat.
proof fn lemma_nodup(colors: Seq<u32>)
    requires
        forall|i: int, j: int| 0 <= i < j < colors.len() ==> colors[i] < colors[j],
    ensures
        colors.no_duplicates(),
{
    assert forall|i: int, j: int|
        0 <= i < colors.len() && 0 <= j < colors.len() && i != j implies colors[i]
        != colors[j] by {
        if i < j {
            assert(colors[i] < colors[j]);
        } else {
            assert(colors[j] < colors[i]);
        }
    }
}

} // verus!
