//! Stable sorting by key: its definition, the facts that make that definition
//! a function of its input, and an executable insertion sort.
//!
//! A stable sort of `s` is a rearrangement `out` of `s`, given by a permutation
//! `p` (`out[i] == s[p[i]]`), in which keys never decrease and elements with
//! equal keys keep their relative order (`p` increases on them). Exactly one
//! such rearrangement exists for every `s`, so `stable_sorted` is well defined.
use vstd::prelude::*;
use crate::order::{key_less, key_lt, lemma_key_order, SortKey, SpecSortKey};

verus! {

/// `p` is a permutation of `0..n` and `q` is its inverse.
pub open spec fn is_perm(p: Seq<int>, q: Seq<int>, n: int) -> bool {
    &&& p.len() == n
    &&& q.len() == n
    &&& forall|i: int| 0 <= i < n ==> 0 <= #[trigger] p[i] < n && q[p[i]] == i
    &&& forall|x: int| 0 <= x < n ==> 0 <= #[trigger] q[x] < n && p[q[x]] == x
}

/// Keys never decrease along `out`.
pub open spec fn sorted_by<A>(out: Seq<A>, key: spec_fn(A) -> SpecSortKey) -> bool {
    forall|i: int, j: int|
        0 <= i < j < out.len() ==> !key_lt(#[trigger] key(out[j]), #[trigger] key(out[i]))
}

/// `out` is `s` rearranged by the permutation `p` (inverse `q`), sorted by
/// `key`, with equal keys in their original relative order.
pub open spec fn sorted_stably_via<A>(
    s: Seq<A>,
    out: Seq<A>,
    p: Seq<int>,
    q: Seq<int>,
    key: spec_fn(A) -> SpecSortKey,
) -> bool {
    &&& out.len() == s.len()
    &&& is_perm(p, q, s.len() as int)
    &&& forall|i: int| 0 <= i < out.len() ==> #[trigger] out[i] == s[p[i]]
    &&& sorted_by(out, key)
    &&& forall|i: int, j: int|
        0 <= i < j < out.len() && #[trigger] key(out[i]) == #[trigger] key(out[j]) ==> p[i] < p[j]
}

/// `out` is a stable sort of `s` by `key`.
pub open spec fn is_stable_sort_of<A>(s: Seq<A>, out: Seq<A>, key: spec_fn(A) -> SpecSortKey) -> bool {
    exists|p: Seq<int>, q: Seq<int>| sorted_stably_via(s, out, p, q, key)
}

/// The stable sort of `s` by `key` (unique: see `lemma_stable_sort_unique`).
pub open spec fn stable_sorted<A>(s: Seq<A>, key: spec_fn(A) -> SpecSortKey) -> Seq<A> {
    choose|out: Seq<A>| is_stable_sort_of(s, out, key)
}

/// The inverse of `p.insert(j, i)` when `q` is the inverse of `p` on `0..i`.
pub open spec fn inverse_after_insert(q: Seq<int>, i: int, j: int) -> Seq<int> {
    Seq::new(
        (i + 1) as nat,
        |x: int|
            if x == i {
                j
            } else if q[x] < j {
                q[x]
            } else {
                q[x] + 1
            },
    )
}

/// Inserting the next element after every element whose key is not greater
/// keeps a stable sort of the prefix a stable sort of the longer prefix.
pub proof fn lemma_insert_step<A>(
    s: Seq<A>,
    i: int,
    out: Seq<A>,
    p: Seq<int>,
    q: Seq<int>,
    key: spec_fn(A) -> SpecSortKey,
    j: int,
)
    requires
        0 <= i < s.len(),
        sorted_stably_via(s.take(i), out, p, q, key),
        0 <= j <= out.len(),
        forall|m: int| 0 <= m < j ==> !key_lt(key(s[i]), #[trigger] key(out[m])),
        j < out.len() ==> key_lt(key(s[i]), key(out[j])),
    ensures
        sorted_stably_via(
            s.take(i + 1),
            out.insert(j, s[i]),
            p.insert(j, i),
            inverse_after_insert(q, i, j),
            key,
        ),
{
    lemma_key_order();
    let out2 = out.insert(j, s[i]);
    let p2 = p.insert(j, i);
    let q2 = inverse_after_insert(q, i, j);
    let s2 = s.take(i + 1);
    assert(out.len() == i);
    assert forall|m: int| 0 <= m < out2.len() implies #[trigger] out2[m] == s2[p2[m]] by {
        if m < j {
            assert(out2[m] == out[m]);
        } else if m > j {
            assert(out2[m] == out[m - 1]);
        }
    }
    assert forall|a: int| 0 <= a < i + 1 implies 0 <= #[trigger] p2[a] < i + 1 && q2[p2[a]] == a by {
        if a < j {
            assert(p2[a] == p[a]);
        } else if a > j {
            assert(p2[a] == p[a - 1]);
        }
    }
    assert forall|x: int| 0 <= x < i + 1 implies 0 <= #[trigger] q2[x] < i + 1 && p2[q2[x]] == x by {
        if x < i {
            if q[x] < j {
                assert(p2[q[x]] == p[q[x]]);
            } else {
                assert(p2[q[x] + 1] == p[q[x]]);
            }
        }
    }
    // Every element before `j` has a key not greater than the new one, and
    // every element from `j` on has a strictly greater key.
    assert forall|m: int| j <= m < out.len() implies key_lt(key(s[i]), #[trigger] key(out[m])) by {
        if m > j {
            assert(!key_lt(key(out[m]), key(out[j])));
            if key(out[m]) != key(out[j]) {
                assert(key_lt(key(out[j]), key(out[m])));
            }
        }
    }
    assert forall|a: int, b: int| 0 <= a < b < out2.len() implies !key_lt(
        #[trigger] key(out2[b]),
        #[trigger] key(out2[a]),
    ) by {
        if a < j && b < j {
            assert(out2[a] == out[a] && out2[b] == out[b]);
        } else if a < j && b == j {
            assert(out2[a] == out[a]);
        } else if a < j && b > j {
            assert(out2[a] == out[a] && out2[b] == out[b - 1]);
        } else if a == j {
            assert(out2[b] == out[b - 1]);
        } else {
            assert(out2[a] == out[a - 1] && out2[b] == out[b - 1]);
        }
    }
    assert forall|a: int, b: int|
        0 <= a < b < out2.len() && #[trigger] key(out2[a]) == #[trigger] key(out2[b]) implies p2[a]
        < p2[b] by {
        if a < j && b < j {
            assert(out2[a] == out[a] && out2[b] == out[b]);
        } else if a < j && b == j {
            assert(p2[a] == p[a]);
        } else if a < j && b > j {
            assert(out2[a] == out[a] && out2[b] == out[b - 1]);
        } else if a == j {
            assert(out2[b] == out[b - 1]);
        } else {
            assert(out2[a] == out[a - 1] && out2[b] == out[b - 1]);
        }
    }
}

/// The position at which the next element is inserted: the first position
/// at or after `j` whose key is strictly greater.
proof fn lemma_find_insert_position<A>(
    out: Seq<A>,
    kx: SpecSortKey,
    key: spec_fn(A) -> SpecSortKey,
    j: int,
) -> (r: int)
    requires
        0 <= j <= out.len(),
        forall|m: int| 0 <= m < j ==> !key_lt(kx, #[trigger] key(out[m])),
    ensures
        j <= r <= out.len(),
        forall|m: int| 0 <= m < r ==> !key_lt(kx, #[trigger] key(out[m])),
        r < out.len() ==> key_lt(kx, key(out[r])),
    decreases out.len() - j,
{
    if j < out.len() && !key_lt(kx, key(out[j])) {
        lemma_find_insert_position(out, kx, key, j + 1)
    } else {
        j
    }
}

proof fn lemma_stable_sort_prefix<A>(s: Seq<A>, key: spec_fn(A) -> SpecSortKey, i: int) -> (r: (
    Seq<A>,
    Seq<int>,
    Seq<int>,
))
    requires
        0 <= i <= s.len(),
    ensures
        sorted_stably_via(s.take(i), r.0, r.1, r.2, key),
    decreases i,
{
    if i == 0 {
        let e: Seq<A> = Seq::empty();
        let z: Seq<int> = Seq::empty();
        assert(s.take(0) =~= e);
        (e, z, z)
    } else {
        let (out, p, q) = lemma_stable_sort_prefix(s, key, i - 1);
        let j = lemma_find_insert_position(out, key(s[i - 1]), key, 0);
        lemma_insert_step(s, i - 1, out, p, q, key, j);
        (out.insert(j, s[i - 1]), p.insert(j, i - 1), inverse_after_insert(q, i - 1, j))
    }
}

/// Every sequence has a stable sort, and `stable_sorted` is one.
pub proof fn lemma_stable_sort_exists<A>(s: Seq<A>, key: spec_fn(A) -> SpecSortKey)
    ensures
        is_stable_sort_of(s, stable_sorted(s, key), key),
{
    let (out, p, q) = lemma_stable_sort_prefix(s, key, s.len() as int);
    assert(s.take(s.len() as int) =~= s);
    assert(sorted_stably_via(s, out, p, q, key));
    assert(is_stable_sort_of(s, out, key));
}

proof fn lemma_unique_prefix<A>(
    s: Seq<A>,
    o1: Seq<A>,
    p1: Seq<int>,
    q1: Seq<int>,
    o2: Seq<A>,
    p2: Seq<int>,
    q2: Seq<int>,
    key: spec_fn(A) -> SpecSortKey,
    k: int,
)
    requires
        sorted_stably_via(s, o1, p1, q1, key),
        sorted_stably_via(s, o2, p2, q2, key),
        0 <= k <= s.len(),
    ensures
        forall|m: int| 0 <= m < k ==> p1[m] == p2[m],
    decreases k,
{
    lemma_key_order();
    if k > 0 {
        lemma_unique_prefix(s, o1, p1, q1, o2, p2, q2, key, k - 1);
        let m = k - 1;
        let a = p1[m];
        let b = p2[m];
        if a != b {
            // `b` sits at position `l` of the first arrangement and `a` at
            // position `l2` of the second, both after `m`.
            let l = q1[b];
            let l2 = q2[a];
            assert(p1[l] == b);
            assert(p2[l2] == a);
            if l < m {
                assert(p2[l] == p1[l]);
            }
            if l2 < m {
                assert(p1[l2] == p2[l2]);
            }
            assert(l > m);
            assert(l2 > m);
            assert(o1[m] == s[a] && o1[l] == s[b]);
            assert(o2[m] == s[b] && o2[l2] == s[a]);
            assert(!key_lt(key(o1[l]), key(o1[m])));
            assert(!key_lt(key(o2[l2]), key(o2[m])));
            assert(key(s[a]) == key(s[b]));
            assert(p1[m] < p1[l]);
            assert(p2[m] < p2[l2]);
        }
    }
}

/// A sequence has at most one stable sort.
pub proof fn lemma_stable_sort_unique<A>(
    s: Seq<A>,
    o1: Seq<A>,
    o2: Seq<A>,
    key: spec_fn(A) -> SpecSortKey,
)
    requires
        is_stable_sort_of(s, o1, key),
        is_stable_sort_of(s, o2, key),
    ensures
        o1 == o2,
{
    let (p1, q1) = choose|p: Seq<int>, q: Seq<int>| sorted_stably_via(s, o1, p, q, key);
    let (p2, q2) = choose|p: Seq<int>, q: Seq<int>| sorted_stably_via(s, o2, p, q, key);
    lemma_unique_prefix(s, o1, p1, q1, o2, p2, q2, key, s.len() as int);
    assert forall|m: int| 0 <= m < o1.len() implies o1[m] == o2[m] by {
        assert(o1[m] == s[p1[m]]);
        assert(o2[m] == s[p2[m]]);
    }
    assert(o1 =~= o2);
}

/// Any stable sort of `s` is `stable_sorted(s, key)`.
pub proof fn lemma_stable_sorted_is<A>(s: Seq<A>, out: Seq<A>, key: spec_fn(A) -> SpecSortKey)
    requires
        is_stable_sort_of(s, out, key),
    ensures
        stable_sorted(s, key) == out,
{
    lemma_stable_sort_exists(s, key);
    lemma_stable_sort_unique(s, out, stable_sorted(s, key), key);
}

/// A sequence already sorted by `key` is its own stable sort.
pub proof fn lemma_stable_sorted_of_sorted<A>(s: Seq<A>, key: spec_fn(A) -> SpecSortKey)
    requires
        sorted_by(s, key),
    ensures
        stable_sorted(s, key) == s,
{
    let id = Seq::new(s.len(), |i: int| i);
    assert(sorted_stably_via(s, s, id, id, key));
    lemma_stable_sorted_is(s, s, key);
}

/// Stable sorting commutes with a map when the key reads through the map.
pub proof fn lemma_stable_sort_map<A, B>(
    s: Seq<A>,
    out: Seq<A>,
    vs: Seq<B>,
    vo: Seq<B>,
    f: spec_fn(A) -> B,
    key: spec_fn(B) -> SpecSortKey,
    keyf: spec_fn(A) -> SpecSortKey,
)
    requires
        is_stable_sort_of(s, out, keyf),
        vs.len() == s.len(),
        vo.len() == out.len(),
        forall|i: int| 0 <= i < s.len() ==> #[trigger] vs[i] == f(s[i]),
        forall|i: int| 0 <= i < out.len() ==> #[trigger] vo[i] == f(out[i]),
        forall|a: A| #[trigger] keyf(a) == key(f(a)),
    ensures
        is_stable_sort_of(vs, vo, key),
{
    let (p, q) = choose|p: Seq<int>, q: Seq<int>| sorted_stably_via(s, out, p, q, keyf);
    assert forall|i: int| 0 <= i < vo.len() implies #[trigger] vo[i] == vs[p[i]] by {
        assert(out[i] == s[p[i]]);
    }
    assert forall|i: int, j: int| 0 <= i < j < vo.len() implies !key_lt(
        #[trigger] key(vo[j]),
        #[trigger] key(vo[i]),
    ) by {
        assert(keyf(out[i]) == key(vo[i]));
        assert(keyf(out[j]) == key(vo[j]));
    }
    assert forall|i: int, j: int|
        0 <= i < j < vo.len() && #[trigger] key(vo[i]) == #[trigger] key(vo[j]) implies p[i]
        < p[j] by {
        assert(keyf(out[i]) == key(vo[i]));
        assert(keyf(out[j]) == key(vo[j]));
    }
    assert(sorted_stably_via(vs, vo, p, q, key));
}

/// `s2` is `s1` rearranged by the permutation `r` (inverse `rinv`), and the
/// rearrangement keeps elements with equal keys in their relative order.
pub open spec fn reorders_stably<A>(
    s1: Seq<A>,
    s2: Seq<A>,
    r: Seq<int>,
    rinv: Seq<int>,
    key: spec_fn(A) -> SpecSortKey,
) -> bool {
    &&& s2.len() == s1.len()
    &&& is_perm(r, rinv, s1.len() as int)
    &&& forall|i: int| 0 <= i < s2.len() ==> #[trigger] s2[i] == s1[r[i]]
    &&& forall|i: int, j: int|
        0 <= i < j < s2.len() && #[trigger] key(s2[i]) == #[trigger] key(s2[j]) ==> r[i] < r[j]
}

/// Two sequences that differ only by a rearrangement keeping equal keys in
/// order have the same stable sort.
pub proof fn lemma_stable_sort_reorder<A>(
    s1: Seq<A>,
    s2: Seq<A>,
    r: Seq<int>,
    rinv: Seq<int>,
    key: spec_fn(A) -> SpecSortKey,
)
    requires
        reorders_stably(s1, s2, r, rinv, key),
    ensures
        stable_sorted(s1, key) == stable_sorted(s2, key),
{
    lemma_stable_sort_exists(s1, key);
    let o = stable_sorted(s1, key);
    let (p1, q1) = choose|p: Seq<int>, q: Seq<int>| sorted_stably_via(s1, o, p, q, key);
    let n = s1.len() as int;
    let p2 = Seq::new(n as nat, |k: int| rinv[p1[k]]);
    let q2 = Seq::new(n as nat, |x: int| q1[r[x]]);
    assert forall|k: int| 0 <= k < n implies 0 <= #[trigger] p2[k] < n && q2[p2[k]] == k by {
        assert(r[rinv[p1[k]]] == p1[k]);
    }
    assert forall|x: int| 0 <= x < n implies 0 <= #[trigger] q2[x] < n && p2[q2[x]] == x by {
        assert(p1[q1[r[x]]] == r[x]);
    }
    assert forall|k: int| 0 <= k < o.len() implies #[trigger] o[k] == s2[p2[k]] by {
        assert(s2[rinv[p1[k]]] == s1[r[rinv[p1[k]]]]);
    }
    assert forall|k: int, l: int|
        0 <= k < l < o.len() && #[trigger] key(o[k]) == #[trigger] key(o[l]) implies p2[k]
        < p2[l] by {
        assert(p1[k] < p1[l]);
        let (a, b) = (p2[k], p2[l]);
        if b < a {
            assert(s2[b] == o[l]);
            assert(s2[a] == o[k]);
            assert(r[b] < r[a]);
        }
        if a == b {
            assert(p1[k] == r[a] && p1[l] == r[b]);
        }
    }
    assert(sorted_stably_via(s2, o, p2, q2, key));
    lemma_stable_sorted_is(s2, o, key);
}

/// Stable insertion sort of `items`, whose keys are given in `keys`.
pub fn stable_sort_by<T>(items: Vec<T>, keys: Vec<SortKey>, Ghost(key): Ghost<spec_fn(T) -> SpecSortKey>) -> (out: Vec<T>)
    requires
        items@.len() == keys@.len(),
        forall|i: int| 0 <= i < keys@.len() ==> #[trigger] keys@[i]@ == key(items@[i]),
    ensures
        is_stable_sort_of(items@, out@, key),
{
    let ghost s = items@;
    let ghost ks = keys@;
    let mut items = items;
    let mut keys = keys;
    let mut out: Vec<T> = Vec::new();
    let mut out_keys: Vec<SortKey> = Vec::new();
    let ghost mut p: Seq<int> = Seq::empty();
    let ghost mut q: Seq<int> = Seq::empty();
    let n = items.len();
    let mut i: usize = 0;
    assert(s.take(0) =~= out@);
    assert(s.skip(0) =~= s);
    assert(ks.skip(0) =~= ks);
    while i < n
        invariant
            n == s.len(),
            s.len() == ks.len(),
            i <= n,
            items@ == s.skip(i as int),
            keys@ == ks.skip(i as int),
            forall|m: int| 0 <= m < ks.len() ==> #[trigger] ks[m]@ == key(s[m]),
            out_keys@.len() == out@.len(),
            forall|m: int| 0 <= m < out@.len() ==> #[trigger] out_keys@[m]@ == key(out@[m]),
            sorted_stably_via(s.take(i as int), out@, p, q, key),
        decreases n - i,
    {
        let x = items.remove(0);
        let kx = keys.remove(0);
        assert(x == s[i as int]);
        assert(kx == ks[i as int]);
        assert(items@ =~= s.skip(i + 1));
        assert(keys@ =~= ks.skip(i + 1));
        let mut j: usize = 0;
        while j < out.len() && !key_less(&kx, &out_keys[j])
            invariant
                j <= out@.len(),
                out_keys@.len() == out@.len(),
                forall|m: int| 0 <= m < out@.len() ==> #[trigger] out_keys@[m]@ == key(out@[m]),
                forall|m: int| 0 <= m < j ==> !key_lt(kx@, #[trigger] key(out@[m])),
            decreases out@.len() - j,
        {
            j += 1;
        }
        proof {
            lemma_insert_step(s, i as int, out@, p, q, key, j as int);
            p = p.insert(j as int, i as int);
            q = inverse_after_insert(q, i as int, j as int);
        }
        out.insert(j, x);
        out_keys.insert(j, kx);
        i += 1;
    }
    assert(s.take(n as int) =~= s);
    out
}

} // verus!
