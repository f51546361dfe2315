use vstd::prelude::*;
use vstd::seq_lib::group_to_multiset_ensures;

verus! {

/// The sum of `f` over all elements of a sequence.
pub open spec fn sum_by<T>(s: Seq<T>, f: spec_fn(T) -> int) -> int
    decreases s.len(),
{
    if s.len() == 0 {
        0
    } else {
        sum_by(s.drop_last(), f) + f(s.last())
    }
}

/// Appending one element adds its weight to the sum.
pub proof fn lemma_sum_by_push<T>(s: Seq<T>, f: spec_fn(T) -> int, x: T)
    ensures
        sum_by(s.push(x), f) == sum_by(s, f) + f(x),
{
    assert(s.push(x).drop_last() =~= s);
}

/// Removing one element takes its weight out of the sum.
pub proof fn lemma_sum_by_remove<T>(s: Seq<T>, f: spec_fn(T) -> int, j: int)
    requires
        0 <= j < s.len(),
    ensures
        sum_by(s.remove(j), f) == sum_by(s, f) - f(s[j]),
    decreases s.len(),
{
    if j == s.len() - 1 {
        assert(s.remove(j) =~= s.drop_last());
    } else {
        assert(s.remove(j).drop_last() =~= s.drop_last().remove(j));
        assert(s.remove(j).last() == s.last());
        lemma_sum_by_remove(s.drop_last(), f, j);
    }
}

/// Replacing one element changes the sum by the difference of the weights.
pub proof fn lemma_sum_by_update<T>(s: Seq<T>, f: spec_fn(T) -> int, j: int, v: T)
    requires
        0 <= j < s.len(),
    ensures
        sum_by(s.update(j, v), f) == sum_by(s, f) - f(s[j]) + f(v),
    decreases s.len(),
{
    if j == s.len() - 1 {
        assert(s.update(j, v).drop_last() =~= s.drop_last());
        assert(s.update(j, v).last() == v);
    } else {
        assert(s.update(j, v).drop_last() =~= s.drop_last().update(j, v));
        assert(s.update(j, v).last() == s.last());
        lemma_sum_by_update(s.drop_last(), f, j, v);
    }
}

/// Sequences with the same multiset of elements have the same sum.
pub proof fn lemma_sum_by_multiset<T>(s1: Seq<T>, s2: Seq<T>, f: spec_fn(T) -> int)
    requires
        s1.to_multiset() == s2.to_multiset(),
    ensures
        sum_by(s1, f) == sum_by(s2, f),
    decreases s1.len(),
{
    broadcast use group_to_multiset_ensures;

    assert(s1.to_multiset().len() == s1.len());
    assert(s2.to_multiset().len() == s2.len());
    if s1.len() == 0 {
        assert(s2.len() == 0);
    } else {
        let x = s1.last();
        assert(s1.contains(x));
        assert(s2.to_multiset().count(x) > 0);
        assert(s2.contains(x));
        let j = choose|j: int| 0 <= j < s2.len() && s2[j] == x;
        assert(s1.drop_last() =~= s1.remove(s1.len() - 1));
        assert(s1.drop_last().to_multiset() == s1.to_multiset().remove(x));
        assert(s2.remove(j).to_multiset() == s2.to_multiset().remove(x));
        lemma_sum_by_multiset(s1.drop_last(), s2.remove(j), f);
        lemma_sum_by_remove(s2, f, j);
    }
}

/// A sum over a sequence splits at any index into the sums of the two parts.
pub proof fn lemma_sum_by_split<T>(s: Seq<T>, f: spec_fn(T) -> int, m: int)
    requires
        0 <= m <= s.len(),
    ensures
        sum_by(s, f) == sum_by(s.subrange(0, m), f) + sum_by(s.subrange(m, s.len() as int), f),
    decreases s.len() - m,
{
    if m == s.len() {
        assert(s.subrange(0, m) =~= s);
        assert(s.subrange(m, s.len() as int) =~= Seq::<T>::empty());
    } else {
        lemma_sum_by_split(s, f, m + 1);
        assert(s.subrange(0, m + 1).drop_last() =~= s.subrange(0, m));
        assert(s.subrange(0, m + 1).last() == s[m]);
        let tail = s.subrange(m, s.len() as int);
        let tail1 = s.subrange(m + 1, s.len() as int);
        lemma_sum_by_head(tail, f);
        assert(tail.drop_first() =~= tail1);
        assert(tail.first() == s[m]);
    }
}

/// A sum equals the first element's weight plus the sum of the rest.
pub proof fn lemma_sum_by_head<T>(s: Seq<T>, f: spec_fn(T) -> int)
    requires
        s.len() > 0,
    ensures
        sum_by(s, f) == f(s.first()) + sum_by(s.drop_first(), f),
    decreases s.len(),
{
    if s.len() == 1 {
        assert(s.drop_first() =~= Seq::<T>::empty());
        assert(s.drop_last() =~= Seq::<T>::empty());
        assert(sum_by(s.drop_last(), f) == 0);
        assert(sum_by(s.drop_first(), f) == 0);
        assert(sum_by(s, f) == sum_by(s.drop_last(), f) + f(s.last()));
        assert(s.last() == s.first());
    } else {
        lemma_sum_by_head(s.drop_last(), f);
        assert(s.drop_last().drop_first() =~= s.drop_first().drop_last());
        assert(s.drop_last().first() == s.first());
        assert(s.drop_first().last() == s.last());
        assert(s.drop_first().len() > 0);
        assert(sum_by(s.drop_first(), f) == sum_by(s.drop_first().drop_last(), f) + f(
            s.drop_first().last(),
        ));
        assert(sum_by(s, f) == sum_by(s.drop_last(), f) + f(s.last()));
        assert(sum_by(s.drop_last(), f) == f(s.first()) + sum_by(s.drop_last().drop_first(), f));
        assert(sum_by(s.drop_first().drop_last(), f) == sum_by(s.drop_last().drop_first(), f));
        assert(sum_by(s, f) == f(s.first()) + sum_by(s.drop_first(), f));
    }
}

/// An element-wise bound on weights carries over to the sums.
pub proof fn lemma_sum_by_le<T>(s: Seq<T>, f: spec_fn(T) -> int, g: spec_fn(T) -> int)
    requires
        forall|i: int| 0 <= i < s.len() ==> f(s[i]) <= g(s[i]),
    ensures
        sum_by(s, f) <= sum_by(s, g),
    decreases s.len(),
{
    if s.len() > 0 {
        assert(forall|i: int|
            0 <= i < s.drop_last().len() ==> f(s.drop_last()[i]) <= g(s.drop_last()[i])) by {
            assert(forall|i: int| 0 <= i < s.len() - 1 ==> s.drop_last()[i] == s[i]);
        }
        lemma_sum_by_le(s.drop_last(), f, g);
        assert(f(s.last()) <= g(s.last()));
    }
}

/// Weights bounded by a constant sum to at most that constant per element.
pub proof fn lemma_sum_by_const_bound<T>(s: Seq<T>, f: spec_fn(T) -> int, c: int)
    requires
        forall|i: int| 0 <= i < s.len() ==> f(s[i]) <= c,
    ensures
        sum_by(s, f) <= c * s.len(),
    decreases s.len(),
{
    if s.len() > 0 {
        assert(forall|i: int| 0 <= i < s.len() - 1 ==> s.drop_last()[i] == s[i]);
        lemma_sum_by_const_bound(s.drop_last(), f, c);
        assert(c * (s.len() - 1) + c == c * s.len()) by (nonlinear_arith);
    }
}

/// A sum of weights that are each scaled copies of another weight is the
/// scaled sum.
pub proof fn lemma_sum_by_scale<T>(s: Seq<T>, f: spec_fn(T) -> int, g: spec_fn(T) -> int, k: int)
    requires
        forall|i: int| 0 <= i < s.len() ==> g(s[i]) == k * f(s[i]),
    ensures
        sum_by(s, g) == k * sum_by(s, f),
    decreases s.len(),
{
    if s.len() > 0 {
        assert(forall|i: int| 0 <= i < s.len() - 1 ==> s.drop_last()[i] == s[i]);
        lemma_sum_by_scale(s.drop_last(), f, g, k);
        assert(sum_by(s, g) == k * sum_by(s.drop_last(), f) + k * f(s.last()));
        assert(k * sum_by(s.drop_last(), f) + k * f(s.last()) == k * (sum_by(s.drop_last(), f) + f(
            s.last(),
        ))) by (nonlinear_arith);
    }
}

/// Every element of a sequence occurs in any sequence with the same multiset.
pub proof fn lemma_multiset_elems<T>(s1: Seq<T>, s2: Seq<T>)
    requires
        s1.to_multiset() == s2.to_multiset(),
    ensures
        forall|i: int| 0 <= i < s2.len() ==> s1.contains(s2[i]),
{
    broadcast use group_to_multiset_ensures;

    assert forall|i: int| 0 <= i < s2.len() implies s1.contains(s2[i]) by {
        assert(s2.contains(s2[i]));
        assert(s2.to_multiset().count(s2[i]) > 0);
    }
}

} // verus!
