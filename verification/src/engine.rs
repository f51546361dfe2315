use vstd::prelude::*;
use vstd::seq_lib::group_to_multiset_ensures;
use crate::bucket::{
    box_wf, covered, sum_cnt, ColorBucket, lemma_sums_multiset, lemma_sum_cnt_push,
};
use crate::color::{entry_inv, mask24, Color, ColorChannel};
use crate::histogram::{
    distinct_colors, histogram_of, lemma_histogram_len, masked, occ, sum_counts, Histogram,
};
use crate::sorting::{sort_range, SortKey};
use crate::sums::{
    lemma_multiset_elems, lemma_sum_by_push, lemma_sum_by_update, sum_by,
};

verus! {

/// Why a quantization call is rejected: the byte buffer does not split into
/// whole four-byte pixels, or the palette size asked for is zero.
#[derive(Debug, Clone, Copy, PartialEq, Eq, Structural)]
pub enum QuantizeError {
    InvalidInput,
}

/// The 32-bit word packed from the four bytes of pixel `i`, low byte first.
pub open spec fn word_at(bytes: Seq<u8>, i: int) -> u32 {
    (bytes[4 * i] as u32) | ((bytes[4 * i + 1] as u32) << 8) | ((bytes[4 * i + 2] as u32) << 16) | (
    (bytes[4 * i + 3] as u32) << 24)
}

/// The packed words of a pixel byte buffer, one per four bytes.
pub open spec fn words_of(bytes: Seq<u8>) -> Seq<u32> {
    Seq::new((bytes.len() / 4) as nat, |i: int| word_at(bytes, i))
}

/// Palette entries come sorted by weakly descending pixel count.
pub open spec fn sorted_desc(q: Seq<ColorChannel>) -> bool {
    forall|i: int, j: int| 0 <= i <= j < q.len() ==> q[i].cnt >= q[j].cnt
}

/// The palette of an image whose distinct colors already fit the palette
/// size: exactly the distinct masked colors, each once, each with its exact
/// pixel count.
pub open spec fn identity_palette(q: Seq<ColorChannel>, m: Seq<u32>) -> bool {
    &&& q.len() == m.to_set().len()
    &&& forall|i: int, j: int| 0 <= i < j < q.len() ==> q[i].rgb != q[j].rgb
    &&& forall|i: int|
        0 <= i < q.len() ==> occ(m, (#[trigger] q[i]).rgb) == q[i].cnt && q[i].cnt >= 1
    &&& forall|v: u32|
        occ(m, v) > 0 ==> exists|i: int| 0 <= i < q.len() && (#[trigger] q[i]).rgb == v
}

/// Everything a returned palette promises for an image of `words` and a
/// palette size `k`: well-formed entries, descending pixel counts, counts
/// that sum to the number of pixels, exactly `min(k, distinct colors)`
/// entries, and — when the image has at most `k` distinct colors — exactly
/// those colors unchanged.
pub open spec fn palette_spec(words: Seq<u32>, k: u32, q: Seq<ColorChannel>) -> bool {
    &&& forall|i: int| 0 <= i < q.len() ==> entry_inv(#[trigger] q[i])
    &&& sorted_desc(q)
    &&& sum_cnt(q) == words.len()
    &&& q.len() <= k
    &&& q.len() <= distinct_colors(words)
    &&& words.len() > 0 ==> q.len() >= 1
    &&& distinct_colors(words) <= k ==> identity_palette(q, masked(words))
    &&& distinct_colors(words) > k ==> q.len() == k
}

/// A box with at least two distinct colors, which a split can part.
pub open spec fn splittable(b: ColorBucket) -> bool {
    b.lower < b.upper
}

/// The total pixel count of a set of boxes.
pub open spec fn sum_box_counts(s: Seq<ColorBucket>) -> int {
    sum_by(s, |b: ColorBucket| b.count as int)
}

/// The number of distinct colors a set of boxes covers.
pub open spec fn sum_box_sizes(s: Seq<ColorBucket>) -> int {
    sum_by(s, |b: ColorBucket| b.upper - b.lower + 1)
}

/// Every box agrees with the table.
pub open spec fn boxes_wf(s: Seq<ColorBucket>, table: Seq<ColorChannel>) -> bool {
    forall|i: int| 0 <= i < s.len() ==> box_wf(#[trigger] s[i], table)
}

/// No two boxes share an index of the table.
pub open spec fn boxes_disjoint(s: Seq<ColorBucket>) -> bool {
    forall|i: int, j: int|
        #![trigger s[i], s[j]]
        0 <= i < s.len() && 0 <= j < s.len() && i != j ==> (s[i].upper < s[j].lower || s[j].upper
            < s[i].lower)
}

/// A permutation of well-formed entries is well-formed.
proof fn lemma_entries_perm(q1: Seq<ColorChannel>, q2: Seq<ColorChannel>)
    requires
        q1.to_multiset() == q2.to_multiset(),
        forall|i: int| 0 <= i < q1.len() ==> entry_inv(#[trigger] q1[i]),
    ensures
        forall|i: int| 0 <= i < q2.len() ==> entry_inv(#[trigger] q2[i]),
{
    lemma_multiset_elems(q1, q2);
    assert forall|i: int| 0 <= i < q2.len() implies entry_inv(#[trigger] q2[i]) by {
        assert(q1.contains(q2[i]));
        let j = choose|j: int| 0 <= j < q1.len() && q1[j] == q2[i];
        assert(entry_inv(q1[j]));
    }
}

/// A permutation of an identity palette is an identity palette.
proof fn lemma_identity_perm(m: Seq<u32>, q1: Seq<ColorChannel>, q2: Seq<ColorChannel>)
    requires
        q1.to_multiset() == q2.to_multiset(),
        identity_palette(q1, m),
    ensures
        identity_palette(q2, m),
{
    broadcast use group_to_multiset_ensures;

    lemma_multiset_elems(q1, q2);
    lemma_multiset_elems(q2, q1);
    assert(q1.to_multiset().len() == q1.len());
    assert(q2.to_multiset().len() == q2.len());
    lemma_palette_nodup(q1);
    q1.lemma_multiset_has_no_duplicates();
    q2.lemma_multiset_has_no_duplicates_conv();
    assert forall|i: int, j: int| 0 <= i < j < q2.len() implies q2[i].rgb != q2[j].rgb by {
        if q2[i].rgb == q2[j].rgb {
            assert(q2[i] != q2[j]);
            assert(q1.contains(q2[i]));
            assert(q1.contains(q2[j]));
            let a = choose|a: int| 0 <= a < q1.len() && q1[a] == q2[i];
            let b = choose|b: int| 0 <= b < q1.len() && q1[b] == q2[j];
            assert(a != b);
            if a < b {
                assert(q1[a].rgb != q1[b].rgb);
            } else {
                assert(q1[b].rgb != q1[a].rgb);
            }
        }
    }
    assert forall|i: int|
        0 <= i < q2.len() implies occ(m, (#[trigger] q2[i]).rgb) == q2[i].cnt && q2[i].cnt
        >= 1 by {
        assert(q1.contains(q2[i]));
        let j = choose|j: int| 0 <= j < q1.len() && q1[j] == q2[i];
        assert(occ(m, q1[j].rgb) == q1[j].cnt);
    }
    assert forall|v: u32| occ(m, v) > 0 implies exists|i: int|
        0 <= i < q2.len() && (#[trigger] q2[i]).rgb == v by {
        let j = choose|j: int| 0 <= j < q1.len() && (#[trigger] q1[j]).rgb == v;
        assert(q2.contains(q1[j]));
        let i = choose|i: int| 0 <= i < q2.len() && q2[i] == q1[j];
        assert(q2[i].rgb == v);
    }
}

/// For an image whose distinct colors already fit the palette size, any two
/// palettes that meet the palette contract hold exactly the same entries:
/// the result is unique up to the order of entries with equal pixel counts.
pub proof fn lemma_sub_threshold_palette_unique(
    words: Seq<u32>,
    k: u32,
    q1: Seq<ColorChannel>,
    q2: Seq<ColorChannel>,
)
    requires
        distinct_colors(words) <= k,
        palette_spec(words, k, q1),
        palette_spec(words, k, q2),
    ensures
        q1.to_multiset() == q2.to_multiset(),
{
    broadcast use group_to_multiset_ensures;

    let m = masked(words);
    lemma_palette_nodup(q1);
    lemma_palette_nodup(q2);
    q1.lemma_multiset_has_no_duplicates();
    q2.lemma_multiset_has_no_duplicates();
    assert forall|e: ColorChannel| #![all_triggers] true implies q1.to_multiset().count(e)
        == q2.to_multiset().count(e) by {
        if q1.contains(e) {
            let i = choose|i: int| 0 <= i < q1.len() && q1[i] == e;
            assert(occ(m, e.rgb) == e.cnt && e.cnt >= 1);
            lemma_identity_entry(m, q2, e);
            assert(q1.to_multiset().count(e) == 1);
            assert(q2.to_multiset().count(e) == 1);
        } else if q2.contains(e) {
            let i = choose|i: int| 0 <= i < q2.len() && q2[i] == e;
            assert(occ(m, e.rgb) == e.cnt && e.cnt >= 1);
            lemma_identity_entry(m, q1, e);
            assert(q1.contains(e));
        } else {
            assert(q1.to_multiset().count(e) == 0);
            assert(q2.to_multiset().count(e) == 0);
        }
    }
    assert(q1.to_multiset() =~= q2.to_multiset());
}

/// An identity palette has an entry for every well-formed record whose color
/// occurs in the image with exactly its count.
proof fn lemma_identity_entry(m: Seq<u32>, q: Seq<ColorChannel>, e: ColorChannel)
    requires
        identity_palette(q, m),
        forall|i: int| 0 <= i < q.len() ==> entry_inv(#[trigger] q[i]),
        entry_inv(e),
        occ(m, e.rgb) == e.cnt,
        e.cnt >= 1,
    ensures
        q.contains(e),
{
    assert(occ(m, e.rgb) > 0);
    let j = choose|j: int| 0 <= j < q.len() && (#[trigger] q[j]).rgb == e.rgb;
    assert(q[j].cnt == occ(m, q[j].rgb));
    crate::color::lemma_pack_rgb_injective(
        q[j].red,
        q[j].grn,
        q[j].blu,
        e.red,
        e.grn,
        e.blu,
    );
    assert(q[j] == e);
}

/// Distinct packed colors make distinct palette records.
proof fn lemma_palette_nodup(q: Seq<ColorChannel>)
    requires
        forall|i: int, j: int| 0 <= i < j < q.len() ==> q[i].rgb != q[j].rgb,
    ensures
        q.no_duplicates(),
{
    assert forall|i: int, j: int|
        0 <= i < q.len() && 0 <= j < q.len() && i != j implies q[i] != q[j] by {
        if i < j {
            assert(q[i].rgb != q[j].rgb);
        } else {
            assert(q[j].rgb != q[i].rgb);
        }
    }
}

/// One split keeps the whole box set lawful: the shrunk box and its new
/// sibling partition the old range, every other box is untouched, the ranges
/// stay disjoint, the counts still sum to the whole image, the levels stay
/// below the new box count, and the table still holds well-formed entries.
proof fn lemma_split_preserves(
    old_set: Seq<ColorBucket>,
    x: int,
    old_bx: ColorBucket,
    bx: ColorBucket,
    nb: ColorBucket,
    old_image: Seq<ColorChannel>,
    t: Seq<ColorChannel>,
)
    requires
        0 <= x < old_set.len(),
        old_set[x] == old_bx,
        boxes_wf(old_set, old_image),
        boxes_disjoint(old_set),
        forall|bi: int| 0 <= bi < old_set.len() ==> (#[trigger] old_set[bi]).level < old_set.len(),
        forall|k: int| 0 <= k < old_image.len() ==> entry_inv(#[trigger] old_image[k]),
        t.len() == old_image.len(),
        forall|k: int|
            0 <= k < t.len() && !(old_bx.lower <= k <= old_bx.upper) ==> t[k] == old_image[k],
        covered(old_bx, t).to_multiset() == covered(old_bx, old_image).to_multiset(),
        bx.lower == old_bx.lower,
        bx.lower <= bx.upper < old_bx.upper,
        nb.lower == bx.upper + 1,
        nb.upper == old_bx.upper,
        bx.level == old_bx.level + 1,
        nb.level == old_bx.level + 1,
        box_wf(bx, t),
        box_wf(nb, t),
        bx.count + nb.count == sum_cnt(covered(old_bx, old_image)),
    ensures
        boxes_wf(old_set.update(x, bx).push(nb), t),
        boxes_disjoint(old_set.update(x, bx).push(nb)),
        forall|bi: int|
            0 <= bi < old_set.update(x, bx).push(nb).len() ==> (#[trigger] old_set.update(
                x,
                bx,
            ).push(nb)[bi]).level < old_set.len() + 1,
        sum_box_counts(old_set.update(x, bx).push(nb)) == sum_box_counts(old_set),
        sum_box_sizes(old_set.update(x, bx).push(nb)) == sum_box_sizes(old_set),
        forall|k: int| 0 <= k < t.len() ==> entry_inv(#[trigger] t[k]),
{
    let new_set = old_set.update(x, bx).push(nb);
    assert(new_set.len() == old_set.len() + 1);
    // untouched boxes cover untouched entries
    assert forall|bi: int|
        0 <= bi < old_set.len() && bi != x implies covered(#[trigger] old_set[bi], t) == covered(
        old_set[bi],
        old_image,
    ) by {
        let b = old_set[bi];
        assert(b.upper < old_bx.lower || old_bx.upper < b.lower);
        assert(covered(b, t) =~= covered(b, old_image));
    }
    // the set of boxes stays lawful
    assert forall|bi: int| 0 <= bi < new_set.len() implies box_wf(#[trigger] new_set[bi], t) by {
        if bi == x {
            assert(new_set[bi] == bx);
        } else if bi == old_set.len() {
            assert(new_set[bi] == nb);
        } else {
            assert(new_set[bi] == old_set[bi]);
            assert(box_wf(old_set[bi], old_image));
            assert(covered(old_set[bi], t) == covered(old_set[bi], old_image));
        }
    }
    // ranges stay disjoint
    assert forall|bi: int, bj: int|
        #![trigger new_set[bi], new_set[bj]]
        0 <= bi < new_set.len() && 0 <= bj < new_set.len() && bi != bj implies (new_set[bi].upper
        < new_set[bj].lower || new_set[bj].upper < new_set[bi].lower) by {
        let oi = if bi == old_set.len() {
            x
        } else {
            bi
        };
        let oj = if bj == old_set.len() {
            x
        } else {
            bj
        };
        if oi != oj {
            assert(old_set[oi].upper < old_set[oj].lower || old_set[oj].upper < old_set[oi].lower);
        }
    }
    // levels stay below the new box count
    assert forall|bi: int| 0 <= bi < new_set.len() implies (#[trigger] new_set[bi]).level
        < old_set.len() + 1 by {
        if bi != x && bi != old_set.len() {
            assert(new_set[bi] == old_set[bi]);
        }
    }
    // the counts still sum to the whole image
    lemma_sum_by_update(old_set, |b: ColorBucket| b.count as int, x, bx);
    lemma_sum_by_push(old_set.update(x, bx), |b: ColorBucket| b.count as int, nb);
    assert(sum_box_counts(new_set) == sum_box_counts(old_set) - old_bx.count + bx.count
        + nb.count);
    // and the ranges still cover as many distinct colors
    lemma_sum_by_update(old_set, |b: ColorBucket| b.upper - b.lower + 1, x, bx);
    lemma_sum_by_push(old_set.update(x, bx), |b: ColorBucket| b.upper - b.lower + 1, nb);
    // the reordered range still holds the entries it held
    lemma_multiset_elems(covered(old_bx, old_image), covered(old_bx, t));
    assert forall|k: int| 0 <= k < t.len() implies entry_inv(#[trigger] t[k]) by {
        if old_bx.lower <= k <= old_bx.upper {
            assert(covered(old_bx, t)[k - old_bx.lower] == t[k]);
            assert(covered(old_bx, old_image).contains(t[k]));
            let w = choose|w: int|
                0 <= w < covered(old_bx, old_image).len() && covered(old_bx, old_image)[w] == t[k];
            assert(covered(old_bx, old_image)[w] == old_image[old_bx.lower + w]);
            assert(entry_inv(old_image[old_bx.lower + w]));
        } else {
            assert(t[k] == old_image[k]);
        }
    }
}

/// Packs each four consecutive bytes into one 32-bit word, low byte first.
fn pack_words(pixels: &[u8]) -> (r: Vec<u32>)
    requires
        pixels@.len() % 4 == 0,
    ensures
        r@ == words_of(pixels@),
{
    let total = pixels.len() / 4;
    let mut v: Vec<u32> = Vec::new();
    let mut i: usize = 0;
    while i < total
        invariant
            i <= total == pixels@.len() / 4,
            pixels@.len() % 4 == 0,
            pixels@.len() <= usize::MAX,
            v@.len() == i,
            forall|k: int| 0 <= k < i ==> v@[k] == word_at(pixels@, k),
        decreases total - i,
    {
        proof {
            vstd::arithmetic::div_mod::lemma_fundamental_div_mod(pixels@.len() as int, 4);
            assert(4 * i + 3 < pixels@.len());
        }
        let b0 = pixels[4 * i];
        let b1 = pixels[4 * i + 1];
        let b2 = pixels[4 * i + 2];
        let b3 = pixels[4 * i + 3];
        let w = (b0 as u32) | ((b1 as u32) << 8) | ((b2 as u32) << 16) | ((b3 as u32) << 24);
        v.push(w);
        i = i + 1;
    }
    proof {
        assert(v@ =~= words_of(pixels@));
    }
    v
}

/// The engine of one quantization run: the shared color table that the boxes
/// index into, and the palette it produced.
pub struct MedianCut {
    image: Vec<ColorChannel>,
    quantized: Vec<ColorChannel>,
}

impl View for MedianCut {
    type V = Seq<ColorChannel>;

    /// A finished run is its palette.
    closed spec fn view(&self) -> Seq<ColorChannel> {
        self.quantized@
    }
}

impl MedianCut {
    /// Quantizes a raw pixel buffer: packs each four bytes into one pixel
    /// word, runs the median cut for at most `pallet_size` colors, and sorts
    /// the palette by descending pixel count.  A buffer that does not split
    /// into whole four-byte pixels, and a palette size of zero, are
    /// rejected.
    pub fn from_pixel_vec(pixels: &[u8], pallet_size: u32) -> (r: Result<
        MedianCut,
        QuantizeError,
    >)
        ensures
            (pixels@.len() % 4 == 0 && pallet_size >= 1) <==> r is Ok,
            r matches Err(e) ==> e == QuantizeError::InvalidInput,
            r matches Ok(mc) ==> palette_spec(words_of(pixels@), pallet_size, mc@),
    {
        if pallet_size == 0 {
            return Err(QuantizeError::InvalidInput);
        }
        if pixels.len() % 4 != 0 {
            return Err(QuantizeError::InvalidInput);
        }
        let vec_32_bit = pack_words(pixels);
        let ghost words = words_of(pixels@);
        let mut dominant_colors = MedianCut { image: Vec::new(), quantized: Vec::new() };
        let q = dominant_colors.median_cut(vec_32_bit.as_slice(), pallet_size);
        dominant_colors.quantized = q;
        let len = dominant_colors.quantized.len();
        if len > 1 {
            let ghost pre = dominant_colors.quantized@;
            sort_range(&mut dominant_colors.quantized, 0, len - 1, SortKey::CountDesc);
            proof {
                let post = dominant_colors.quantized@;
                assert(post.subrange(0, len as int) =~= post);
                assert(pre.subrange(0, len as int) =~= pre);
                assert(pre.to_multiset() == post.to_multiset());
                lemma_sums_multiset(pre, post, Color::Red);
                lemma_entries_perm(pre, post);
                if distinct_colors(words) <= pallet_size {
                    lemma_identity_perm(masked(words), pre, post);
                }
            }
        }
        proof {
            let q2 = dominant_colors.quantized@;
            assert forall|i: int, j: int|
                0 <= i <= j < q2.len() implies (#[trigger] q2[i]).cnt >= (#[trigger] q2[j]).cnt by {
                if i != j {
                    assert(crate::sorting::key_le(SortKey::CountDesc, q2[i], q2[j]));
                }
            }
        }
        Ok(dominant_colors)
    }

    /// The palette: the representative colors, descending by pixel count.
    pub fn get_quantized_colors(&self) -> (r: &Vec<ColorChannel>)
        ensures
            r@ == self@,
    {
        &self.quantized
    }

    /// Picks the next box to split: among the boxes that two or more
    /// distinct colors leave splittable, the first of the least-split
    /// generation — or nothing, when no box can be split.
    fn get_next_split(&self, color_buckets: &Vec<ColorBucket>) -> (r: Option<usize>)
        requires
            forall|k: int|
                0 <= k < color_buckets@.len() ==> (#[trigger] color_buckets@[k]).lower
                    <= color_buckets@[k].upper < usize::MAX,
        ensures
            r is None ==> forall|k: int|
                0 <= k < color_buckets@.len() ==> !splittable(#[trigger] color_buckets@[k]),
            r matches Some(x) ==> {
                &&& x < color_buckets@.len()
                &&& splittable(color_buckets@[x as int])
                &&& forall|k: int|
                    0 <= k < color_buckets@.len() && splittable(#[trigger] color_buckets@[k])
                        ==> color_buckets@[x as int].level <= color_buckets@[k].level
                &&& forall|k: int|
                    0 <= k < x && splittable(#[trigger] color_buckets@[k])
                        ==> color_buckets@[x as int].level < color_buckets@[k].level
            },
    {
        let mut next_split: Option<usize> = None;
        let n = color_buckets.len();
        let mut k: usize = 0;
        while k < n
            invariant
                k <= n == color_buckets@.len(),
                forall|j: int|
                    0 <= j < color_buckets@.len() ==> (#[trigger] color_buckets@[j]).lower
                        <= color_buckets@[j].upper < usize::MAX,
                next_split is None ==> forall|j: int|
                    0 <= j < k ==> !splittable(#[trigger] color_buckets@[j]),
                next_split matches Some(x) ==> {
                    &&& x < k
                    &&& splittable(color_buckets@[x as int])
                    &&& forall|j: int|
                        0 <= j < k && splittable(#[trigger] color_buckets@[j])
                            ==> color_buckets@[x as int].level <= color_buckets@[j].level
                    &&& forall|j: int|
                        0 <= j < x && splittable(#[trigger] color_buckets@[j])
                            ==> color_buckets@[x as int].level < color_buckets@[j].level
                },
            decreases n - k,
        {
            let bucket = &color_buckets[k];
            let take = if bucket.color_count() >= 2 {
                match next_split {
                    Option::None => true,
                    Option::Some(x) => bucket.level < color_buckets[x].level,
                }
            } else {
                false
            };
            if take {
                next_split = Some(k);
            }
            k = k + 1;
        }
        next_split
    }

    /// Runs one full quantization: builds the histogram, loads the color
    /// table, and — when the image holds more distinct colors than the
    /// palette may keep — repeatedly splits the least-split box at the
    /// weighted median of its longest channel, until the palette size is
    /// reached or no box can be split, then averages every box.  With at
    /// most `pallet_size` distinct colors the table itself is the palette.
    fn median_cut(&mut self, pixels: &[u32], pallet_size: u32) -> (r: Vec<ColorChannel>)
        requires
            pallet_size >= 1,
        ensures
            forall|i: int| 0 <= i < r@.len() ==> entry_inv(#[trigger] r@[i]),
            sum_cnt(r@) == pixels@.len(),
            r@.len() <= pallet_size,
            r@.len() <= distinct_colors(pixels@),
            pixels@.len() > 0 ==> r@.len() >= 1,
            distinct_colors(pixels@) <= pallet_size ==> identity_palette(r@, masked(pixels@)),
            distinct_colors(pixels@) > pallet_size ==> r@.len() == pallet_size,
    {
        let pixel_total = pixels.len();
        let color_hist = Histogram::new_pixels(pixels);
        let hist_color_total = color_hist.color_vec.len();
        let ghost colors = color_hist.color_vec@;
        let ghost counts = color_hist.count_vec@;
        proof {
            lemma_histogram_len(pixels@, colors, counts);
        }
        self.image = Vec::new();
        let mut i: usize = 0;
        while i < hist_color_total
            invariant
                i <= hist_color_total,
                colors == color_hist.color_vec@,
                counts == color_hist.count_vec@,
                hist_color_total == colors.len(),
                counts.len() == colors.len(),
                histogram_of(pixels@, colors, counts),
                self.image@.len() == i,
                forall|k: int|
                    0 <= k < i ==> (#[trigger] self.image@[k]).rgb == colors[k]
                        && self.image@[k].cnt == counts[k] && entry_inv(self.image@[k]),
                sum_cnt(self.image@) == sum_counts(counts.subrange(0, i as int)),
            decreases hist_color_total - i,
        {
            let rgb = color_hist.color_vec[i];
            let cnt = color_hist.count_vec[i];
            let entry = ColorChannel::new_rgb(rgb, cnt);
            proof {
                assert(mask24(colors[i as int]) == colors[i as int]);
                assert(entry.rgb == colors[i as int]);
            }
            let ghost pre = self.image@;
            self.image.push(entry);
            proof {
                lemma_sum_cnt_push(pre, entry);
                lemma_sum_by_push(
                    counts.subrange(0, i as int),
                    |c: usize| c as int,
                    counts[i as int],
                );
                assert(counts.subrange(0, i as int).push(counts[i as int]) =~= counts.subrange(
                    0,
                    i + 1,
                ));
            }
            i = i + 1;
        }
        proof {
            assert(counts.subrange(0, hist_color_total as int) =~= counts);
            // the table counts every pixel, so its count sums fit a usize
            assert(sum_cnt(self.image@) == pixel_total as int);
        }

        if hist_color_total <= pallet_size as usize {
            let mut out: Vec<ColorChannel> = Vec::new();
            let mut j: usize = 0;
            while j < hist_color_total
                invariant
                    j <= hist_color_total == self.image@.len(),
                    out@.len() == j,
                    forall|k: int| 0 <= k < j ==> out@[k] == self.image@[k],
                decreases hist_color_total - j,
            {
                let entry = self.image[j];
                out.push(entry);
                j = j + 1;
            }
            proof {
                assert(out@ =~= self.image@);
                let m = masked(pixels@);
                if counts.len() == 0 {
                    assert(sum_counts(counts) == 0);
                }
                assert forall|v: u32| occ(m, v) > 0 implies exists|k: int|
                    0 <= k < out@.len() && (#[trigger] out@[k]).rgb == v by {
                    assert(colors.contains(v));
                    let w = choose|w: int| 0 <= w < colors.len() && colors[w] == v;
                    assert(out@[w].rgb == v);
                }
                assert(identity_palette(out@, m));
            }
            out
        } else {
            proof {
                assert(self.image@.subrange(0, hist_color_total as int) =~= self.image@);
            }
            let initial_box = ColorBucket::new(0, hist_color_total - 1, 0, &self.image);
            let mut color_set: Vec<ColorBucket> = Vec::new();
            color_set.push(initial_box);
            let mut count: u32 = 1;
            let mut done = false;
            proof {
                assert(covered(initial_box, self.image@) =~= self.image@);
                assert(sum_box_counts(color_set@) == initial_box.count as int) by {
                    lemma_sum_by_push(
                        Seq::<ColorBucket>::empty(),
                        |b: ColorBucket| b.count as int,
                        initial_box,
                    );
                    assert(Seq::<ColorBucket>::empty().push(initial_box) =~= color_set@);
                }
                assert(sum_box_sizes(color_set@) == hist_color_total) by {
                    lemma_sum_by_push(
                        Seq::<ColorBucket>::empty(),
                        |b: ColorBucket| b.upper - b.lower + 1,
                        initial_box,
                    );
                    assert(Seq::<ColorBucket>::empty().push(initial_box) =~= color_set@);
                }
            }
            while count < pallet_size && !done
                invariant
                    1 <= count <= pallet_size,
                    !done,
                    (pallet_size as int) < hist_color_total,
                    sum_box_sizes(color_set@) == hist_color_total,
                    color_set@.len() == count,
                    self.image@.len() == hist_color_total,
                    forall|k: int|
                        0 <= k < self.image@.len() ==> entry_inv(#[trigger] self.image@[k]),
                    boxes_wf(color_set@, self.image@),
                    boxes_disjoint(color_set@),
                    forall|bi: int|
                        0 <= bi < color_set@.len() ==> (#[trigger] color_set@[bi]).level < count,
                    sum_box_counts(color_set@) == pixels@.len(),
                decreases pallet_size - count, (if done {
                    0int
                } else {
                    1int
                }),
            {
                proof {
                    assert forall|k: int|
                        0 <= k < color_set@.len() implies (#[trigger] color_set@[k]).lower
                        <= color_set@[k].upper < usize::MAX by {
                        assert(box_wf(color_set@[k], self.image@));
                    }
                }
                let next = self.get_next_split(&color_set);
                match next {
                    Option::Some(x) => {
                        let mut bx = color_set[x];
                        let ghost old_bx = bx;
                        let ghost old_image = self.image@;
                        let ghost old_set = color_set@;
                        proof {
                            assert(box_wf(old_bx, old_image));
                        }
                        let nb_opt = bx.split_box(&mut self.image);
                        let nb = match nb_opt {
                            Option::Some(nb) => nb,
                            Option::None => vstd::pervasive::unreached(),
                        };
                        color_set.set(x, bx);
                        color_set.push(nb);
                        proof {
                            let t = self.image@;
                            lemma_split_preserves(old_set, x as int, old_bx, bx, nb, old_image, t);
                        }
                        count = count + 1;
                    },
                    Option::None => {
                        // cannot happen: fewer boxes than distinct colors
                        // always leave one box with two colors to split
                        proof {
                            assert forall|k: int|
                                0 <= k < color_set@.len() implies (#[trigger] color_set@[k]).upper
                                - color_set@[k].lower + 1 <= 1 by {
                                assert(!splittable(color_set@[k]));
                                assert(box_wf(color_set@[k], self.image@));
                            }
                            crate::sums::lemma_sum_by_const_bound(
                                color_set@,
                                |b: ColorBucket| b.upper - b.lower + 1,
                                1,
                            );
                            assert(sum_box_sizes(color_set@) <= color_set@.len());
                            assert(false);
                        }
                        done = true;
                    },
                }
            }
            proof {
                assert(count == pallet_size);
            }
            let result = self.avg_colors(&color_set);
            result
        }
    }

    /// Reduces every box to its averaged color.
    fn avg_colors(&self, color_buckets: &Vec<ColorBucket>) -> (r: Vec<ColorChannel>)
        requires
            boxes_wf(color_buckets@, self.image@),
            forall|k: int| 0 <= k < self.image@.len() ==> entry_inv(#[trigger] self.image@[k]),
        ensures
            r@.len() == color_buckets@.len(),
            forall|i: int| 0 <= i < r@.len() ==> entry_inv(#[trigger] r@[i]),
            sum_cnt(r@) == sum_box_counts(color_buckets@),
    {
        let n = color_buckets.len();
        let mut avg_colors: Vec<ColorChannel> = Vec::new();
        let mut i: usize = 0;
        while i < n
            invariant
                i <= n == color_buckets@.len(),
                boxes_wf(color_buckets@, self.image@),
                forall|k: int| 0 <= k < self.image@.len() ==> entry_inv(#[trigger] self.image@[k]),
                avg_colors@.len() == i,
                forall|j: int| 0 <= j < i ==> entry_inv(#[trigger] avg_colors@[j]),
                sum_cnt(avg_colors@) == sum_box_counts(color_buckets@.subrange(0, i as int)),
            decreases n - i,
        {
            let bucket = &color_buckets[i];
            proof {
                assert(box_wf(color_buckets@[i as int], self.image@));
                assert forall|k: int|
                    bucket.lower <= k <= bucket.upper implies (#[trigger] self.image@[k]).cnt
                    >= 1 by {
                    assert(entry_inv(self.image@[k]));
                }
            }
            let c = bucket.avg_color(&self.image);
            let ghost pre = avg_colors@;
            avg_colors.push(c);
            proof {
                lemma_sum_cnt_push(pre, c);
                lemma_sum_by_push(
                    color_buckets@.subrange(0, i as int),
                    |b: ColorBucket| b.count as int,
                    color_buckets@[i as int],
                );
                assert(color_buckets@.subrange(0, i as int).push(color_buckets@[i as int])
                    =~= color_buckets@.subrange(0, i + 1));
            }
            i = i + 1;
        }
        proof {
            assert(color_buckets@.subrange(0, n as int) =~= color_buckets@);
        }
        avg_colors
    }
}

} // verus!
