use vstd::prelude::*;
use vstd::utf8::*;

verus! {

/// The texts of a sequence of strings.
pub open spec fn texts(s: Seq<String>) -> Seq<Seq<char>> {
    s.map_values(|x: String| x@)
}

/// Strict lexicographic order on byte strings (a proper prefix comes first).
pub open spec fn bytes_lt(a: Seq<u8>, b: Seq<u8>) -> bool
    decreases a.len(),
{
    if b.len() == 0 {
        false
    } else if a.len() == 0 {
        true
    } else if a[0] != b[0] {
        a[0] < b[0]
    } else {
        bytes_lt(a.drop_first(), b.drop_first())
    }
}

/// The order of `String`/`str` in Rust: lexicographic on the UTF-8 bytes.
pub open spec fn text_lt(a: Seq<char>, b: Seq<char>) -> bool {
    bytes_lt(encode_utf8(a), encode_utf8(b))
}

/// A sequence of texts in strictly ascending order (hence without duplicates).
pub open spec fn strictly_ascending(s: Seq<Seq<char>>) -> bool {
    forall|i: int, j: int| 0 <= i < j < s.len() ==> text_lt(#[trigger] s[i], #[trigger] s[j])
}

pub proof fn lemma_bytes_lt_irreflexive(a: Seq<u8>)
    ensures
        !bytes_lt(a, a),
    decreases a.len(),
{
    if a.len() > 0 {
        lemma_bytes_lt_irreflexive(a.drop_first());
    }
}

pub proof fn lemma_bytes_lt_transitive(a: Seq<u8>, b: Seq<u8>, c: Seq<u8>)
    requires
        bytes_lt(a, b),
        bytes_lt(b, c),
    ensures
        bytes_lt(a, c),
    decreases a.len(),
{
    if a.len() > 0 && b.len() > 0 && c.len() > 0 && a[0] == b[0] && b[0] == c[0] {
        lemma_bytes_lt_transitive(a.drop_first(), b.drop_first(), c.drop_first());
    }
}

pub proof fn lemma_bytes_lt_total(a: Seq<u8>, b: Seq<u8>)
    requires
        a != b,
    ensures
        bytes_lt(a, b) || bytes_lt(b, a),
    decreases a.len(),
{
    if a.len() > 0 && b.len() > 0 && a[0] == b[0] {
        if a.drop_first() == b.drop_first() {
            assert(a =~= seq![a[0]] + a.drop_first());
            assert(b =~= seq![b[0]] + b.drop_first());
        }
        lemma_bytes_lt_total(a.drop_first(), b.drop_first());
    } else if a.len() == 0 && b.len() == 0 {
        assert(a =~= b);
    }
}

pub proof fn lemma_text_lt_irreflexive(a: Seq<char>)
    ensures
        !text_lt(a, a),
{
    lemma_bytes_lt_irreflexive(encode_utf8(a));
}

pub proof fn lemma_text_lt_transitive(a: Seq<char>, b: Seq<char>, c: Seq<char>)
    requires
        text_lt(a, b),
        text_lt(b, c),
    ensures
        text_lt(a, c),
{
    lemma_bytes_lt_transitive(encode_utf8(a), encode_utf8(b), encode_utf8(c));
}

pub proof fn lemma_text_lt_asymmetric(a: Seq<char>, b: Seq<char>)
    requires
        text_lt(a, b),
    ensures
        !text_lt(b, a),
{
    if text_lt(b, a) {
        lemma_text_lt_transitive(a, b, a);
        lemma_text_lt_irreflexive(a);
    }
}

pub proof fn lemma_text_lt_total(a: Seq<char>, b: Seq<char>)
    requires
        a != b,
    ensures
        text_lt(a, b) || text_lt(b, a),
{
    encode_utf8_decode_utf8(a);
    encode_utf8_decode_utf8(b);
    lemma_bytes_lt_total(encode_utf8(a), encode_utf8(b));
}

/// `a < b` for Rust strings.
pub fn str_lt(a: &str, b: &str) -> (r: bool)
    ensures
        r == text_lt(a@, b@),
{
    let x = a.as_bytes();
    let y = b.as_bytes();
    let ghost xs = x@;
    let ghost ys = y@;
    let mut i: usize = 0;
    assert(xs.subrange(0, xs.len() as int) =~= xs);
    assert(ys.subrange(0, ys.len() as int) =~= ys);
    while i < x.len() && i < y.len()
        invariant
            xs == x@,
            ys == y@,
            xs == encode_utf8(a@),
            ys == encode_utf8(b@),
            i <= xs.len(),
            i <= ys.len(),
            bytes_lt(xs, ys) == bytes_lt(xs.subrange(i as int, xs.len() as int), ys.subrange(i as int, ys.len() as int)),
        decreases xs.len() - i,
    {
        let p = x[i];
        let q = y[i];
        proof {
            let xr = xs.subrange(i as int, xs.len() as int);
            let yr = ys.subrange(i as int, ys.len() as int);
            assert(xr.drop_first() =~= xs.subrange(i + 1, xs.len() as int));
            assert(yr.drop_first() =~= ys.subrange(i + 1, ys.len() as int));
        }
        if p != q {
            return p < q;
        }
        i = i + 1;
    }
    i < y.len()
}

/// `a == b` for Rust strings.
pub fn str_eq(a: &str, b: &str) -> (r: bool)
    ensures
        r == (a@ == b@),
{
    let lt = str_lt(a, b);
    let gt = str_lt(b, a);
    proof {
        if a@ == b@ {
            lemma_text_lt_irreflexive(a@);
        } else {
            lemma_text_lt_total(a@, b@);
        }
    }
    !lt && !gt
}

/// Whether `s` is in the strictly ascending list `v`; if not, where it would go.
pub fn locate_text(v: &Vec<String>, s: &str) -> (r: (bool, usize))
    requires
        strictly_ascending(texts(v@)),
    ensures
        r.1 <= v.len(),
        r.0 ==> r.1 < v.len() && texts(v@)[r.1 as int] == s@,
        !r.0 ==> !texts(v@).contains(s@),
        !r.0 ==> forall|k: int| 0 <= k < r.1 ==> text_lt(#[trigger] texts(v@)[k], s@),
        !r.0 ==> forall|k: int| r.1 <= k < v.len() ==> text_lt(s@, #[trigger] texts(v@)[k]),
{
    let ghost dv = texts(v@);
    let mut i: usize = 0;
    while i < v.len()
        invariant
            dv == texts(v@),
            strictly_ascending(dv),
            i <= v.len(),
            forall|k: int| 0 <= k < i ==> text_lt(#[trigger] dv[k], s@),
        decreases v.len() - i,
    {
        let cur = v[i].as_str();
        if !str_lt(s, cur) && !str_lt(cur, s) {
            proof {
                if cur@ != s@ {
                    lemma_text_lt_total(cur@, s@);
                }
            }
            return (true, i);
        }
        if str_lt(s, cur) {
            proof {
                assert forall|k: int| i <= k < v.len() implies text_lt(s@, #[trigger] dv[k]) by {
                    if k > i {
                        lemma_text_lt_transitive(s@, dv[i as int], dv[k]);
                    }
                }
                assert forall|k: int| 0 <= k < dv.len() implies dv[k] != s@ by {
                    if k < i {
                        lemma_text_lt_irreflexive(s@);
                    } else {
                        lemma_text_lt_irreflexive(s@);
                    }
                }
            }
            return (false, i);
        }
        i = i + 1;
    }
    proof {
        assert forall|k: int| 0 <= k < dv.len() implies dv[k] != s@ by {
            lemma_text_lt_irreflexive(s@);
        }
    }
    (false, i)
}

/// Adds `s` to the strictly ascending list `v`, as inserting into a sorted set does.
pub fn insert_text(v: &mut Vec<String>, s: String)
    requires
        strictly_ascending(texts(old(v)@)),
    ensures
        strictly_ascending(texts(final(v)@)),
        texts(final(v)@).to_set() == texts(old(v)@).to_set().insert(s@),
        texts(old(v)@).contains(s@) ==> texts(final(v)@) == texts(old(v)@),
{
    let (found, at) = locate_text(v, s.as_str());
    if found {
        proof {
            assert(texts(old(v)@).to_set().insert(s@) =~= texts(old(v)@).to_set());
        }
        return;
    }
    let ghost before = texts(v@);
    let ghost sv = s@;
    v.insert(at, s);
    proof {
        let after = texts(v@);
        assert(after =~= before.insert(at as int, sv));
        assert forall|i: int, j: int| 0 <= i < j < after.len() implies text_lt(#[trigger] after[i], #[trigger] after[j]) by {
            if j < at {
            } else if i < at && j == at {
            } else if i < at && j > at {
                assert(after[j] == before[j - 1]);
            } else if i == at {
                assert(after[j] == before[j - 1]);
            } else {
                assert(after[i] == before[i - 1]);
                assert(after[j] == before[j - 1]);
            }
        }
        assert forall|x: Seq<char>| after.to_set().contains(x) <==> before.to_set().insert(sv).contains(x) by {
            if after.to_set().contains(x) {
                let k = choose|k: int| 0 <= k < after.len() && after[k] == x;
                if k < at {
                    assert(before[k] == x);
                } else if k > at {
                    assert(before[k - 1] == x);
                }
            }
            if before.to_set().contains(x) {
                let k = choose|k: int| 0 <= k < before.len() && before[k] == x;
                if k < at {
                    assert(after[k] == x);
                } else {
                    assert(after[k + 1] == x);
                }
            }
            if x == sv {
                assert(after[at as int] == x);
            }
        }
        assert(after.to_set() =~= before.to_set().insert(sv));
    }
}

/// The distinct texts of `items`, ascending: what sorting then deduplicating gives.
pub fn ascending_distinct(items: Vec<String>) -> (r: Vec<String>)
    ensures
        strictly_ascending(texts(r@)),
        texts(r@).to_set() == texts(items@).to_set(),
{
    let mut r: Vec<String> = Vec::new();
    let ghost all = texts(items@);
    let mut rest = items;
    let mut taken: usize = 0;
    proof {
        assert(texts(r@).to_set() =~= all.subrange(0, 0).to_set());
    }
    let n = rest.len();
    let mut i: usize = 0;
    while i < n
        invariant
            n == all.len(),
            texts(rest@) == all,
            i <= n,
            strictly_ascending(texts(r@)),
            texts(r@).to_set() == all.subrange(0, i as int).to_set(),
        decreases n - i,
    {
        let s = rest[i].clone();
        proof {
            assert(s@ == all[i as int]);
        }
        insert_text(&mut r, s);
        proof {
            assert(all.subrange(0, i as int + 1) =~= all.subrange(0, i as int).push(all[i as int]));
            all.subrange(0, i as int).lemma_push_to_set_commute(all[i as int]);
        }
        i = i + 1;
    }
    proof {
        assert(all.subrange(0, n as int) =~= all);
    }
    r
}

/// A set has at most one strictly ascending listing.
pub proof fn lemma_ascending_unique(a: Seq<Seq<char>>, b: Seq<Seq<char>>)
    requires
        strictly_ascending(a),
        strictly_ascending(b),
        a.to_set() == b.to_set(),
    ensures
        a == b,
    decreases a.len(),
{
    if a.len() == 0 {
        if b.len() > 0 {
            assert(b.to_set().contains(b[0]));
        }
        assert(a =~= b);
    } else if b.len() == 0 {
        assert(a.to_set().contains(a[0]));
    } else {
        let x = a.last();
        let y = b.last();
        assert(a.to_set().contains(x));
        assert(b.to_set().contains(y));
        assert(b.to_set().contains(x));
        assert(a.to_set().contains(y));
        let i = choose|i: int| 0 <= i < b.len() && b[i] == x;
        let j = choose|j: int| 0 <= j < a.len() && a[j] == y;
        if x != y {
            if i < b.len() - 1 {
                assert(text_lt(x, y));
            }
            if j < a.len() - 1 {
                assert(text_lt(y, x));
            }
            if i < b.len() - 1 && j < a.len() - 1 {
                lemma_text_lt_asymmetric(x, y);
            }
        }
        let a2 = a.drop_last();
        let b2 = b.drop_last();
        assert(strictly_ascending(a2)) by {
            assert forall|p: int, q: int| 0 <= p < q < a2.len() implies text_lt(#[trigger] a2[p], #[trigger] a2[q]) by {
                assert(a2[p] == a[p] && a2[q] == a[q]);
            }
        }
        assert(strictly_ascending(b2)) by {
            assert forall|p: int, q: int| 0 <= p < q < b2.len() implies text_lt(#[trigger] b2[p], #[trigger] b2[q]) by {
                assert(b2[p] == b[p] && b2[q] == b[q]);
            }
        }
        assert forall|t: Seq<char>| a2.to_set().contains(t) <==> b2.to_set().contains(t) by {
            if a2.to_set().contains(t) {
                let p = choose|p: int| 0 <= p < a2.len() && a2[p] == t;
                assert(text_lt(a[p], x));
                assert(a.to_set().contains(t));
                let q = choose|q: int| 0 <= q < b.len() && b[q] == t;
                if q == b.len() - 1 {
                    lemma_text_lt_irreflexive(x);
                }
                assert(b2[q] == t);
            }
            if b2.to_set().contains(t) {
                let q = choose|q: int| 0 <= q < b2.len() && b2[q] == t;
                assert(text_lt(b[q], y));
                assert(b.to_set().contains(t));
                let p = choose|p: int| 0 <= p < a.len() && a[p] == t;
                if p == a.len() - 1 {
                    lemma_text_lt_irreflexive(y);
                }
                assert(a2[p] == t);
            }
        }
        assert(a2.to_set() =~= b2.to_set());
        lemma_ascending_unique(a2, b2);
        assert(a =~= a2.push(x));
        assert(b =~= b2.push(y));
    }
}

} // verus!
