use vstd::prelude::*;
use vstd::seq_lib::group_to_multiset_ensures;
use vstd::multiset::group_multiset_axioms;
use crate::color::{chan, Color, ColorChannel};

verus! {

/// The order a table range is sorted by: ascending by one channel, or
/// descending by pixel count.
#[derive(Debug, Clone, Copy, PartialEq, Eq, Structural)]
pub enum SortKey {
    Chan(Color),
    CountDesc,
}

/// The (total, transitive) order that a `SortKey` stands for.
pub open spec fn key_le(key: SortKey, a: ColorChannel, b: ColorChannel) -> bool {
    match key {
        SortKey::Chan(c) => chan(a, c) <= chan(b, c),
        SortKey::CountDesc => a.cnt >= b.cnt,
    }
}

/// Strict comparison consistent with `key_le`.
fn key_lt(key: SortKey, a: &ColorChannel, b: &ColorChannel) -> (r: bool)
    ensures
        r == !key_le(key, *b, *a),
{
    match key {
        SortKey::Chan(Color::Red) => a.red < b.red,
        SortKey::Chan(Color::Green) => a.grn < b.grn,
        SortKey::Chan(Color::Blue) => a.blu < b.blu,
        SortKey::CountDesc => a.cnt > b.cnt,
    }
}

/// Replacing one element exchanges its weight in the multiset.
pub proof fn lemma_update_to_multiset<T>(s: Seq<T>, i: int, v: T)
    requires
        0 <= i < s.len(),
    ensures
        s.update(i, v).to_multiset() == s.to_multiset().remove(s[i]).insert(v),
{
    broadcast use group_to_multiset_ensures;

    assert(s.update(i, v) =~= s.remove(i).insert(i, v));
    assert(s.remove(i).to_multiset() == s.to_multiset().remove(s[i]));
    vstd::seq_lib::to_multiset_insert(s.remove(i), i, v);
}

/// Swapping two elements leaves the multiset unchanged.
pub proof fn lemma_swap_to_multiset<T>(s: Seq<T>, i: int, j: int)
    requires
        0 <= i < s.len(),
        0 <= j < s.len(),
    ensures
        s.update(i, s[j]).update(j, s[i]).to_multiset() == s.to_multiset(),
{
    broadcast use group_to_multiset_ensures;
    broadcast use group_multiset_axioms;

    if i == j {
        assert(s.update(i, s[j]).update(j, s[i]) =~= s);
    } else {
        let s1 = s.update(i, s[j]);
        lemma_update_to_multiset(s, i, s[j]);
        assert(s1[j] == s[j]);
        lemma_update_to_multiset(s1, j, s[i]);
        assert(s.contains(s[i]));
        assert(s.to_multiset().count(s[i]) > 0);
        assert(s1.update(j, s[i]).to_multiset() =~= s.to_multiset());
    }
}

/// Sorts the inclusive range `[lo, hi]` of the table in the order the key
/// stands for; entries outside the range are untouched and the range keeps
/// its multiset of entries.
pub fn sort_range(v: &mut Vec<ColorChannel>, lo: usize, hi: usize, key: SortKey)
    requires
        lo <= hi < old(v).len(),
    ensures
        final(v).len() == old(v).len(),
        forall|k: int|
            0 <= k < final(v).len() && !(lo <= k <= hi) ==> final(v)@[k] == old(v)@[k],
        final(v)@.subrange(lo as int, hi + 1).to_multiset() == old(v)@.subrange(
            lo as int,
            hi + 1,
        ).to_multiset(),
        forall|a: int, b: int| lo <= a <= b <= hi ==> key_le(key, final(v)@[a], final(v)@[b]),
{
    let ghost os = old(v)@.subrange(lo as int, hi + 1);
    let mut i: usize = lo + 1;
    while i <= hi
        invariant
            lo <= i <= hi + 1,
            hi < v.len() == old(v).len(),
            forall|k: int| 0 <= k < v.len() && !(lo <= k <= hi) ==> v@[k] == old(v)@[k],
            v@.subrange(lo as int, hi + 1).to_multiset() == os.to_multiset(),
            os == old(v)@.subrange(lo as int, hi + 1),
            forall|a: int, b: int| lo <= a <= b < i ==> key_le(key, v@[a], v@[b]),
        decreases hi + 1 - i,
    {
        let mut j: usize = i;
        while j > lo && key_lt(key, &v[j], &v[j - 1])
            invariant
                lo <= j <= i <= hi,
                hi < v.len() == old(v).len(),
                forall|k: int| 0 <= k < v.len() && !(lo <= k <= hi) ==> v@[k] == old(v)@[k],
                v@.subrange(lo as int, hi + 1).to_multiset() == os.to_multiset(),
                os == old(v)@.subrange(lo as int, hi + 1),
                forall|a: int, b: int|
                    lo <= a <= b <= i && a != j && b != j ==> key_le(key, v@[a], v@[b]),
                forall|b: int| j < b <= i ==> key_le(key, v@[j as int], v@[b]),
            decreases j,
        {
            let ghost s = v@;
            let tmp = v[j];
            let prev = v[j - 1];
            v.set(j, prev);
            v.set(j - 1, tmp);
            proof {
                assert(v@ =~= s.update(j as int, s[j - 1]).update(j - 1, s[j as int]));
                lemma_swap_to_multiset(s.subrange(lo as int, hi + 1), j - lo, j - lo - 1);
                assert(v@.subrange(lo as int, hi + 1) =~= s.subrange(lo as int, hi + 1).update(
                    j - lo,
                    s.subrange(lo as int, hi + 1)[j - lo - 1],
                ).update(j - lo - 1, s.subrange(lo as int, hi + 1)[j - lo]));
            }
            j = j - 1;
        }
        proof {
            assert forall|a: int, b: int| lo <= a <= b <= i implies key_le(key, v@[a], v@[b]) by {
                if a == b {
                } else if a == j {
                } else if b == j {
                    assert(j > lo);
                    assert(key_le(key, v@[j - 1], v@[j as int]));
                    if a < j - 1 {
                        assert(key_le(key, v@[a], v@[j - 1]));
                    }
                }
            }
        }
        i = i + 1;
    }
}

/// Sorts a vector of packed words ascending; the multiset of words is kept.
pub fn sort_words(v: &mut Vec<u32>)
    ensures
        final(v).len() == old(v).len(),
        final(v)@.to_multiset() == old(v)@.to_multiset(),
        forall|a: int, b: int| 0 <= a <= b < final(v).len() ==> final(v)@[a] <= final(v)@[b],
{
    if v.len() == 0 {
        return ;
    }
    let ghost os = old(v)@;
    let mut i: usize = 1;
    while i < v.len()
        invariant
            1 <= i <= v.len() == old(v).len(),
            v@.to_multiset() == os.to_multiset(),
            os == old(v)@,
            forall|a: int, b: int| 0 <= a <= b < i ==> v@[a] <= v@[b],
        decreases v.len() - i,
    {
        let mut j: usize = i;
        while j > 0 && v[j] < v[j - 1]
            invariant
                0 <= j <= i < v.len() == old(v).len(),
                v@.to_multiset() == os.to_multiset(),
                os == old(v)@,
                forall|a: int, b: int| 0 <= a <= b <= i && a != j && b != j ==> v@[a] <= v@[b],
                forall|b: int| j < b <= i ==> v@[j as int] <= v@[b],
            decreases j,
        {
            let ghost s = v@;
            let tmp = v[j];
            let prev = v[j - 1];
            v.set(j, prev);
            v.set(j - 1, tmp);
            proof {
                assert(v@ =~= s.update(j as int, s[j - 1]).update(j - 1, s[j as int]));
                lemma_swap_to_multiset(s, j as int, j - 1);
            }
            j = j - 1;
        }
        proof {
            assert forall|a: int, b: int| 0 <= a <= b <= i implies v@[a] <= v@[b] by {
                if a == b {
                } else if a == j {
                } else if b == j {
                    assert(j > 0);
                    assert(v@[j - 1] <= v@[j as int]);
                    if a < j - 1 {
                        assert(v@[a] <= v@[j - 1]);
                    }
                }
            }
        }
        i = i + 1;
    }
}

} // verus!
