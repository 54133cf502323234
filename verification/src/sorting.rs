use vstd::prelude::*;

verus! {

/// A strict "must come before" relation used for stable sorting.
pub trait SortKey: Sized {
    spec fn precedes(&self, other: &Self) -> bool;

    fn check_precedes(&self, other: &Self) -> (r: bool)
        ensures
            r == self.precedes(other),
    ;
}

/// `s` with `x` inserted after every element that `x` does not precede
/// (the step of a stable insertion sort).
pub open spec fn sorted_insert<T: SortKey>(s: Seq<T>, x: T) -> Seq<T>
    decreases s.len(),
{
    if s.len() == 0 {
        seq![x]
    } else if x.precedes(&s.last()) {
        sorted_insert(s.drop_last(), x).push(s.last())
    } else {
        s.push(x)
    }
}

/// The stable sort of `s`: elements in key order, equal keys in input order.
pub open spec fn stable_sorted<T: SortKey>(s: Seq<T>) -> Seq<T>
    decreases s.len(),
{
    if s.len() == 0 {
        s
    } else {
        sorted_insert(stable_sorted(s.drop_last()), s.last())
    }
}

proof fn lemma_sorted_insert_at<T: SortKey>(s: Seq<T>, x: T, j: int)
    requires
        0 <= j <= s.len(),
        forall|k: int| j <= k < s.len() ==> x.precedes(#[trigger] &s[k]),
        j > 0 ==> !x.precedes(&s[j - 1]),
    ensures
        sorted_insert(s, x) == s.insert(j, x),
    decreases s.len(),
{
    if s.len() == 0 {
        assert(s.insert(j, x) =~= seq![x]);
    } else if j == s.len() {
        assert(s.insert(j, x) =~= s.push(x));
    } else {
        assert(x.precedes(&s[s.len() - 1]));
        lemma_sorted_insert_at(s.drop_last(), x, j);
        assert(s.drop_last().insert(j, x).push(s.last()) =~= s.insert(j, x));
    }
}

/// Inserts `x` into `r` as `sorted_insert` does.
pub fn insert_in_order<T: SortKey>(r: &mut Vec<T>, x: T)
    ensures
        final(r)@ == sorted_insert(old(r)@, x),
{
    let mut j = r.len();
    while j > 0 && x.check_precedes(&r[j - 1])
        invariant
            j <= r@.len(),
            r@ == old(r)@,
            forall|k: int| j <= k < r@.len() ==> x.precedes(#[trigger] &r@[k]),
        decreases j,
    {
        j = j - 1;
    }
    proof {
        lemma_sorted_insert_at(r@, x, j as int);
    }
    r.insert(j, x);
}

/// Stable sort of `v` (what `sort_by` with the same key gives).
pub fn stable_sort<T: SortKey>(v: Vec<T>) -> (r: Vec<T>)
    ensures
        r@ == stable_sorted(v@),
{
    let ghost all = v@;
    let mut rest = v;
    let mut r: Vec<T> = Vec::new();
    let mut i: usize = 0;
    let n = rest.len();
    proof {
        assert(all.take(0) =~= Seq::<T>::empty());
    }
    while rest.len() > 0
        invariant
            n == all.len(),
            i + rest@.len() == all.len(),
            rest@ == all.skip(i as int),
            r@ == stable_sorted(all.take(i as int)),
        decreases rest@.len(),
    {
        let x = rest.remove(0);
        proof {
            assert(x == all[i as int]);
            assert(all.take(i as int + 1).drop_last() =~= all.take(i as int));
            assert(rest@ =~= all.skip(i as int + 1));
        }
        insert_in_order(&mut r, x);
        i = i + 1;
    }
    proof {
        assert(all.take(i as int) =~= all);
    }
    r
}

/// Stable sorting only reorders: the multiset of elements is kept.
pub proof fn lemma_stable_sorted_multiset<T: SortKey>(s: Seq<T>)
    ensures
        stable_sorted(s).to_multiset() == s.to_multiset(),
    decreases s.len(),
{
    broadcast use vstd::seq_lib::group_to_multiset_ensures;
    if s.len() > 0 {
        lemma_stable_sorted_multiset(s.drop_last());
        lemma_sorted_insert_multiset(stable_sorted(s.drop_last()), s.last());
        assert(s =~= s.drop_last().push(s.last()));
    }
}

proof fn lemma_sorted_insert_multiset<T: SortKey>(s: Seq<T>, x: T)
    ensures
        sorted_insert(s, x).to_multiset() == s.to_multiset().insert(x),
    decreases s.len(),
{
    broadcast use vstd::seq_lib::group_to_multiset_ensures;
    if s.len() > 0 {
        if x.precedes(&s.last()) {
            lemma_sorted_insert_multiset(s.drop_last(), x);
            assert(s =~= s.drop_last().push(s.last()));
            assert(s.drop_last().to_multiset().insert(x).insert(s.last()) =~= s.drop_last().to_multiset().insert(s.last()).insert(x));
        }
    } else {
        assert(seq![x] =~= Seq::<T>::empty().push(x));
    }
}

/// Every element of the stable sort of `s` is an element of `s`.
pub proof fn lemma_stable_sorted_elements<T: SortKey>(s: Seq<T>)
    ensures
        stable_sorted(s).len() == s.len(),
        forall|i: int| 0 <= i < stable_sorted(s).len() ==> s.contains(#[trigger] stable_sorted(s)[i]),
{
    broadcast use vstd::seq_lib::group_to_multiset_ensures;
    lemma_stable_sorted_multiset(s);
    assert forall|i: int| 0 <= i < stable_sorted(s).len() implies s.contains(#[trigger] stable_sorted(s)[i]) by {
        let x = stable_sorted(s)[i];
        assert(stable_sorted(s).contains(x));
        assert(stable_sorted(s).to_multiset().count(x) > 0);
        assert(s.to_multiset().count(x) > 0);
    }
    assert(stable_sorted(s).to_multiset().len() == s.to_multiset().len());
}

/// `precedes` is asymmetric on every pair of values.
pub open spec fn precedes_asymmetric<T: SortKey>() -> bool {
    forall|a: T, b: T| #[trigger] a.precedes(&b) ==> !b.precedes(&a)
}

/// No element of `s` precedes the element just before it.
pub open spec fn adjacent_in_order<T: SortKey>(s: Seq<T>) -> bool {
    forall|i: int, j: int| #![trigger s[i], s[j]] 0 <= i && j == i + 1 && j < s.len() ==> !s[j].precedes(&s[i])
}

proof fn lemma_sorted_insert_last<T: SortKey>(s: Seq<T>, x: T)
    ensures
        sorted_insert(s, x).len() == s.len() + 1,
        s.len() == 0 ==> sorted_insert(s, x).last() == x,
        s.len() > 0 && x.precedes(&s.last()) ==> sorted_insert(s, x).last() == s.last(),
        s.len() > 0 && !x.precedes(&s.last()) ==> sorted_insert(s, x).last() == x,
    decreases s.len(),
{
    if s.len() > 0 && x.precedes(&s.last()) {
        lemma_sorted_insert_last(s.drop_last(), x);
    }
}

proof fn lemma_sorted_insert_adjacent<T: SortKey>(s: Seq<T>, x: T)
    requires
        precedes_asymmetric::<T>(),
        adjacent_in_order(s),
    ensures
        adjacent_in_order(sorted_insert(s, x)),
    decreases s.len(),
{
    let r = sorted_insert(s, x);
    if s.len() == 0 {
    } else if x.precedes(&s.last()) {
        let d = s.drop_last();
        assert(adjacent_in_order(d)) by {
            assert forall|i: int, j: int| #![trigger d[i], d[j]] 0 <= i && j == i + 1 && j < d.len() implies !d[j].precedes(&d[i]) by {
                assert(d[i] == s[i] && d[j] == s[j]);
            }
        }
        lemma_sorted_insert_adjacent(d, x);
        lemma_sorted_insert_last(d, x);
        let q = sorted_insert(d, x);
        assert(r == q.push(s.last()));
        assert forall|i: int, j: int| #![trigger r[i], r[j]] 0 <= i && j == i + 1 && j < r.len() implies !r[j].precedes(&r[i]) by {
            if j < q.len() {
                assert(r[i] == q[i] && r[j] == q[j]);
            } else {
                assert(r[j] == s.last());
                assert(r[i] == q.last());
                if d.len() > 0 && x.precedes(&d.last()) {
                    assert(q.last() == d.last());
                    assert(d.last() == s[s.len() - 2]);
                    assert(!s[s.len() - 1].precedes(&s[s.len() - 2]));
                } else {
                    assert(q.last() == x);
                }
            }
        }
    } else {
        assert(r == s.push(x));
        assert forall|i: int, j: int| #![trigger r[i], r[j]] 0 <= i && j == i + 1 && j < r.len() implies !r[j].precedes(&r[i]) by {
            if j < s.len() {
                assert(r[i] == s[i] && r[j] == s[j]);
            } else {
                assert(r[j] == x && r[i] == s.last());
            }
        }
    }
}

/// With an asymmetric `precedes`, no element of a stable sort precedes its predecessor.
pub proof fn lemma_stable_sorted_adjacent<T: SortKey>(s: Seq<T>)
    requires
        precedes_asymmetric::<T>(),
    ensures
        adjacent_in_order(stable_sorted(s)),
    decreases s.len(),
{
    if s.len() > 0 {
        lemma_stable_sorted_adjacent(s.drop_last());
        lemma_sorted_insert_adjacent(stable_sorted(s.drop_last()), s.last());
    }
}

/// No two elements of `s` share a key.
pub open spec fn keys_distinct<T, K>(s: Seq<T>, key: spec_fn(T) -> K) -> bool {
    forall|i: int, j: int| #![trigger s[i], s[j]] 0 <= i < j < s.len() ==> key(s[i]) != key(s[j])
}

proof fn lemma_sorted_insert_members<T: SortKey>(s: Seq<T>, x: T)
    ensures
        forall|i: int| 0 <= i < sorted_insert(s, x).len() ==> #[trigger] sorted_insert(s, x)[i] == x || s.contains(sorted_insert(s, x)[i]),
    decreases s.len(),
{
    lemma_sorted_insert_last(s, x);
    if s.len() > 0 && x.precedes(&s.last()) {
        let d = s.drop_last();
        lemma_sorted_insert_members(d, x);
        let q = sorted_insert(d, x);
        assert forall|i: int| 0 <= i < sorted_insert(s, x).len() implies #[trigger] sorted_insert(s, x)[i] == x || s.contains(sorted_insert(s, x)[i]) by {
            if i < q.len() {
                assert(sorted_insert(s, x)[i] == q[i]);
                if q[i] != x {
                    let j = choose|j: int| 0 <= j < d.len() && d[j] == q[i];
                    assert(s[j] == d[j]);
                }
            } else {
                assert(sorted_insert(s, x)[i] == s[s.len() - 1]);
            }
        }
    } else if s.len() > 0 {
        assert forall|i: int| 0 <= i < sorted_insert(s, x).len() implies #[trigger] sorted_insert(s, x)[i] == x || s.contains(sorted_insert(s, x)[i]) by {
            if i < s.len() {
                assert(sorted_insert(s, x)[i] == s[i]);
            }
        }
    }
}

proof fn lemma_sorted_insert_distinct<T: SortKey, K>(s: Seq<T>, x: T, key: spec_fn(T) -> K)
    requires
        keys_distinct(s, key),
        forall|i: int| 0 <= i < s.len() ==> key(#[trigger] s[i]) != key(x),
    ensures
        keys_distinct(sorted_insert(s, x), key),
    decreases s.len(),
{
    lemma_sorted_insert_last(s, x);
    let r = sorted_insert(s, x);
    if s.len() > 0 && x.precedes(&s.last()) {
        let d = s.drop_last();
        assert(keys_distinct(d, key)) by {
            assert forall|i: int, j: int| #![trigger d[i], d[j]] 0 <= i < j < d.len() implies key(d[i]) != key(d[j]) by {
                assert(d[i] == s[i] && d[j] == s[j]);
            }
        }
        assert forall|i: int| 0 <= i < d.len() implies key(#[trigger] d[i]) != key(x) by {
            assert(d[i] == s[i]);
        }
        lemma_sorted_insert_distinct(d, x, key);
        lemma_sorted_insert_members(d, x);
        let q = sorted_insert(d, x);
        assert(r == q.push(s.last()));
        assert forall|i: int, j: int| #![trigger r[i], r[j]] 0 <= i < j < r.len() implies key(r[i]) != key(r[j]) by {
            if j < q.len() {
                assert(r[i] == q[i] && r[j] == q[j]);
            } else {
                assert(r[i] == q[i]);
                assert(r[j] == s[s.len() - 1]);
                if q[i] != x {
                    let m = choose|m: int| 0 <= m < d.len() && d[m] == q[i];
                    assert(s[m] == d[m]);
                }
            }
        }
    } else if s.len() > 0 {
        assert(r == s.push(x));
        assert forall|i: int, j: int| #![trigger r[i], r[j]] 0 <= i < j < r.len() implies key(r[i]) != key(r[j]) by {
            assert(r[i] == s[i]);
            if j < s.len() {
                assert(r[j] == s[j]);
            }
        }
    }
}

/// A stable sort keeps keys distinct.
pub proof fn lemma_stable_sorted_distinct<T: SortKey, K>(s: Seq<T>, key: spec_fn(T) -> K)
    requires
        keys_distinct(s, key),
    ensures
        keys_distinct(stable_sorted(s), key),
    decreases s.len(),
{
    if s.len() > 0 {
        let d = s.drop_last();
        assert(keys_distinct(d, key)) by {
            assert forall|i: int, j: int| #![trigger d[i], d[j]] 0 <= i < j < d.len() implies key(d[i]) != key(d[j]) by {
                assert(d[i] == s[i] && d[j] == s[j]);
            }
        }
        lemma_stable_sorted_distinct(d, key);
        lemma_stable_sorted_elements(d);
        assert forall|i: int| 0 <= i < stable_sorted(d).len() implies key(#[trigger] stable_sorted(d)[i]) != key(s.last()) by {
            assert(d.contains(stable_sorted(d)[i]));
            let m = choose|m: int| 0 <= m < d.len() && d[m] == stable_sorted(d)[i];
            assert(s[m] == d[m]);
            assert(key(s[m]) != key(s[s.len() - 1]));
        }
        lemma_sorted_insert_distinct(stable_sorted(d), s.last(), key);
    }
}

/// Every element of `s` occurs in its stable sort.
pub proof fn lemma_stable_sorted_contains<T: SortKey>(s: Seq<T>)
    ensures
        forall|i: int| 0 <= i < s.len() ==> stable_sorted(s).contains(#[trigger] s[i]),
{
    broadcast use vstd::seq_lib::group_to_multiset_ensures;
    lemma_stable_sorted_multiset(s);
    assert forall|i: int| 0 <= i < s.len() implies stable_sorted(s).contains(#[trigger] s[i]) by {
        assert(s.contains(s[i]));
        assert(s.to_multiset().count(s[i]) > 0);
        assert(stable_sorted(s).to_multiset().count(s[i]) > 0);
    }
}

} // verus!
