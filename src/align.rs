//! The alignment of a previous and a next key sequence: which next position
//! takes over which previous position. It splits both sides around their
//! longest common run of keys and recurses on what lies before and after.

use vstd::prelude::*;

use crate::lcs::precedes;

verus! {

/// `a[sa .. sa + len] == b[sb .. sb + len]`.
pub open spec fn key_run<K>(a: Seq<K>, b: Seq<K>, sa: int, sb: int, len: int) -> bool {
    &&& 0 <= sa
    &&& 0 <= sb
    &&& 0 <= len
    &&& sa + len <= a.len()
    &&& sb + len <= b.len()
    &&& forall|k: int| 0 <= k < len ==> #[trigger] a[sa + k] == b[sb + k]
}

/// `(sa, sb, len)` is the longest common run of keys, and the earliest of the
/// longest ones.
pub open spec fn best_key_run<K>(a: Seq<K>, b: Seq<K>, sa: int, sb: int, len: int) -> bool {
    &&& key_run(a, b, sa, sb, len)
    &&& forall|sa2: int, sb2: int, len2: int|
        #[trigger] key_run(a, b, sa2, sb2, len2) ==> len2 <= len && (len2 == len ==> precedes(
            sa,
            sb,
            sa2,
            sb2,
        ))
}

/// The best run of `a` and `b`, as `(start in a, start in b, length)`.
pub open spec fn split<K>(a: Seq<K>, b: Seq<K>) -> (int, int, int) {
    choose|r: (int, int, int)| best_key_run(a, b, r.0, r.1, r.2)
}

/// Maps each next position in `nlo .. nhi` that is matched to the previous
/// position in `plo .. phi` whose state it takes over.
pub open spec fn align<K>(prev: Seq<K>, plo: int, phi: int, next: Seq<K>, nlo: int, nhi: int) -> Map<
    int,
    int,
>
    decreases (phi - plo) + (nhi - nlo),
{
    if plo < 0 || nlo < 0 || phi > prev.len() || nhi > next.len() || plo >= phi || nlo >= nhi {
        Map::empty()
    } else {
        let r = split(prev.subrange(plo, phi), next.subrange(nlo, nhi));
        let pa = plo + r.0;
        let nb = nlo + r.1;
        let len = r.2;
        if len <= 0 || r.0 < 0 || r.1 < 0 || pa + len > phi || nb + len > nhi {
            Map::empty()
        } else {
            align(prev, plo, pa, next, nlo, nb).union_prefer_right(
                Map::new(|j: int| nb <= j < nb + len, |j: int| j - nb + pa),
            ).union_prefer_right(align(prev, pa + len, phi, next, nb + len, nhi))
        }
    }
}

/// The alignment of two whole key sequences.
pub open spec fn align_all<K>(prev: Seq<K>, next: Seq<K>) -> Map<int, int> {
    align(prev, 0, prev.len() as int, next, 0, next.len() as int)
}

/// No key occurs twice in `s`.
pub open spec fn distinct<K>(s: Seq<K>) -> bool {
    forall|i: int, j: int| 0 <= i < s.len() && 0 <= j < s.len() && i != j ==> s[i] != s[j]
}

/// The keys that occur on both sides occur in the same relative order.
pub open spec fn same_order<K>(prev: Seq<K>, next: Seq<K>) -> bool {
    forall|i1: int, i2: int, j1: int, j2: int|
        0 <= i1 < i2 < prev.len() && 0 <= j1 < next.len() && 0 <= j2 < next.len() && #[trigger] prev[i1]
            == #[trigger] next[j1] && #[trigger] prev[i2] == #[trigger] next[j2] ==> j1 < j2
}

/// Every key of `prev[plo .. phi]` that occurs in `next` occurs in
/// `next[nlo .. nhi]`, and the other way round.
pub open spec fn closed<K>(prev: Seq<K>, plo: int, phi: int, next: Seq<K>, nlo: int, nhi: int) -> bool {
    &&& forall|i: int, j: int|
        plo <= i < phi && 0 <= j < next.len() && #[trigger] prev[i] == #[trigger] next[j] ==> nlo <= j
            < nhi
    &&& forall|i: int, j: int|
        nlo <= j < nhi && 0 <= i < prev.len() && #[trigger] prev[i] == #[trigger] next[j] ==> plo <= i
            < phi
}

proof fn lemma_best_from<K>(a: Seq<K>, b: Seq<K>, sa: int, sb: int, len: int)
    requires
        key_run(a, b, sa, sb, len),
    ensures
        exists|r: (int, int, int)| best_key_run(a, b, r.0, r.1, r.2),
    decreases a.len() - len, sa, sb,
{
    if best_key_run(a, b, sa, sb, len) {
        assert(best_key_run(a, b, (sa, sb, len).0, (sa, sb, len).1, (sa, sb, len).2));
    } else {
        let (sa2, sb2, len2) = choose|sa2: int, sb2: int, len2: int|
            #[trigger] key_run(a, b, sa2, sb2, len2) && !(len2 <= len && (len2 == len ==> precedes(
                sa,
                sb,
                sa2,
                sb2,
            )));
        lemma_best_from(a, b, sa2, sb2, len2);
    }
}

/// `split` is the best run.
pub proof fn lemma_split<K>(a: Seq<K>, b: Seq<K>)
    ensures
        best_key_run(a, b, split(a, b).0, split(a, b).1, split(a, b).2),
{
    assert(key_run(a, b, 0, 0, 0));
    lemma_best_from(a, b, 0, 0, 0);
}

/// Of two best runs of the same sequences, both are the same.
pub proof fn lemma_best_key_run_unique<K>(
    a: Seq<K>,
    b: Seq<K>,
    r1: (int, int, int),
    r2: (int, int, int),
)
    requires
        best_key_run(a, b, r1.0, r1.1, r1.2),
        best_key_run(a, b, r2.0, r2.1, r2.2),
    ensures
        r1 == r2,
{
    assert(key_run(a, b, r2.0, r2.1, r2.2));
    assert(key_run(a, b, r1.0, r1.1, r1.2));
}

/// Each matched next position lies in its range, takes a previous position
/// of its range with the same key, and the matching keeps the order of both
/// sides.
pub proof fn lemma_align_shape<K>(prev: Seq<K>, plo: int, phi: int, next: Seq<K>, nlo: int, nhi: int)
    ensures
        forall|j: int| #[trigger]
            align(prev, plo, phi, next, nlo, nhi).contains_key(j) ==> {
                &&& nlo <= j < nhi
                &&& plo <= align(prev, plo, phi, next, nlo, nhi)[j] < phi
                &&& 0 <= j < next.len()
                &&& 0 <= align(prev, plo, phi, next, nlo, nhi)[j] < prev.len()
                &&& prev[align(prev, plo, phi, next, nlo, nhi)[j]] == next[j]
            },
        forall|j1: int, j2: int|
            #[trigger] align(prev, plo, phi, next, nlo, nhi).contains_key(j1) && #[trigger] align(
                prev,
                plo,
                phi,
                next,
                nlo,
                nhi,
            ).contains_key(j2) && j1 < j2 ==> align(prev, plo, phi, next, nlo, nhi)[j1] < align(
                prev,
                plo,
                phi,
                next,
                nlo,
                nhi,
            )[j2],
    decreases (phi - plo) + (nhi - nlo),
{
    if plo < 0 || nlo < 0 || phi > prev.len() || nhi > next.len() || plo >= phi || nlo >= nhi {
    } else {
        let a = prev.subrange(plo, phi);
        let b = next.subrange(nlo, nhi);
        let r = split(a, b);
        let pa = plo + r.0;
        let nb = nlo + r.1;
        let len = r.2;
        if len <= 0 || r.0 < 0 || r.1 < 0 || pa + len > phi || nb + len > nhi {
        } else {
            lemma_split(a, b);
            lemma_align_shape(prev, plo, pa, next, nlo, nb);
            lemma_align_shape(prev, pa + len, phi, next, nb + len, nhi);
            let pre = align(prev, plo, pa, next, nlo, nb);
            let mid = Map::new(|j: int| nb <= j < nb + len, |j: int| j - nb + pa);
            let post = align(prev, pa + len, phi, next, nb + len, nhi);
            let m = align(prev, plo, phi, next, nlo, nhi);
            assert(m == pre.union_prefer_right(mid).union_prefer_right(post));
            assert forall|j: int| #[trigger] m.contains_key(j) implies {
                &&& nlo <= j < nhi
                &&& plo <= m[j] < phi
                &&& 0 <= j < next.len()
                &&& 0 <= m[j] < prev.len()
                &&& prev[m[j]] == next[j]
            } by {
                if post.contains_key(j) {
                } else if mid.contains_key(j) {
                    assert(a[r.0 + (j - nb)] == b[r.1 + (j - nb)]);
                } else {
                }
            }
            assert forall|j1: int, j2: int|
                #[trigger] m.contains_key(j1) && #[trigger] m.contains_key(j2) && j1 < j2 implies m[j1]
                < m[j2] by {
                if post.contains_key(j2) {
                    if post.contains_key(j1) {
                    } else if mid.contains_key(j1) {
                    } else {
                    }
                } else if mid.contains_key(j2) {
                    if post.contains_key(j1) {
                    } else if mid.contains_key(j1) {
                    } else {
                    }
                } else {
                    if post.contains_key(j1) {
                    } else if mid.contains_key(j1) {
                    } else {
                    }
                }
            }
        }
    }
}

/// Where keys are distinct on each side and the keys common to both sides
/// keep their relative order, every previous position whose key occurs in
/// the next range is matched, to the position with that key.
proof fn lemma_align_keeps_common_range<K>(
    prev: Seq<K>,
    plo: int,
    phi: int,
    next: Seq<K>,
    nlo: int,
    nhi: int,
)
    requires
        distinct(prev),
        distinct(next),
        same_order(prev, next),
        closed(prev, plo, phi, next, nlo, nhi),
        0 <= plo <= phi <= prev.len(),
        0 <= nlo <= nhi <= next.len(),
    ensures
        forall|i: int, j: int|
            plo <= i < phi && nlo <= j < nhi && #[trigger] prev[i] == #[trigger] next[j] ==> align(
                prev,
                plo,
                phi,
                next,
                nlo,
                nhi,
            ).contains_key(j) && align(prev, plo, phi, next, nlo, nhi)[j] == i,
    decreases (phi - plo) + (nhi - nlo),
{
    if plo >= phi || nlo >= nhi {
    } else {
        let a = prev.subrange(plo, phi);
        let b = next.subrange(nlo, nhi);
        let r = split(a, b);
        lemma_split(a, b);
        let pa = plo + r.0;
        let nb = nlo + r.1;
        let len = r.2;
        let m = align(prev, plo, phi, next, nlo, nhi);
        if len <= 0 {
            assert forall|i: int, j: int|
                plo <= i < phi && nlo <= j < nhi && #[trigger] prev[i] == #[trigger] next[j] implies m.contains_key(
                j,
            ) && m[j] == i by {
                assert(a[(i - plo) + 0] == b[(j - nlo) + 0]);
                assert(key_run(a, b, i - plo, j - nlo, 1));
            }
        } else {
            assert(a[r.0 + 0] == b[r.1 + 0]);
            assert(prev[pa] == next[nb]);
            assert(closed(prev, plo, pa, next, nlo, nb)) by {
                assert forall|i: int, j: int|
                    plo <= i < pa && 0 <= j < next.len() && #[trigger] prev[i] == #[trigger] next[j] implies nlo
                    <= j < nb by {
                    if j >= nb {
                        if j == nb {
                            assert(prev[i] == prev[pa]);
                        }
                    }
                }
                assert forall|i: int, j: int|
                    nlo <= j < nb && 0 <= i < prev.len() && #[trigger] prev[i] == #[trigger] next[j] implies plo
                    <= i < pa by {
                    if i >= pa {
                        if i == pa {
                            assert(next[j] == next[nb]);
                        }
                    }
                }
            }
            let q = pa + len - 1;
            let t = nb + len - 1;
            assert(a[r.0 + (len - 1)] == b[r.1 + (len - 1)]);
            assert(prev[q] == next[t]);
            assert(closed(prev, pa + len, phi, next, nb + len, nhi)) by {
                assert forall|i: int, j: int|
                    pa + len <= i < phi && 0 <= j < next.len() && #[trigger] prev[i] == #[trigger] next[j] implies nb
                    + len <= j < nhi by {
                    if j < nb + len {
                        if j == t {
                            assert(prev[i] == prev[q]);
                        }
                    }
                }
                assert forall|i: int, j: int|
                    nb + len <= j < nhi && 0 <= i < prev.len() && #[trigger] prev[i] == #[trigger] next[j] implies pa
                    + len <= i < phi by {
                    if i < pa + len {
                        if i == q {
                            assert(next[j] == next[t]);
                        }
                    }
                }
            }
            lemma_align_keeps_common_range(prev, plo, pa, next, nlo, nb);
            lemma_align_keeps_common_range(prev, pa + len, phi, next, nb + len, nhi);
            lemma_align_shape(prev, plo, pa, next, nlo, nb);
            lemma_align_shape(prev, pa + len, phi, next, nb + len, nhi);
            let pre = align(prev, plo, pa, next, nlo, nb);
            let mid = Map::new(|j: int| nb <= j < nb + len, |j: int| j - nb + pa);
            let post = align(prev, pa + len, phi, next, nb + len, nhi);
            assert(m == pre.union_prefer_right(mid).union_prefer_right(post));
            assert forall|i: int, j: int|
                plo <= i < phi && nlo <= j < nhi && #[trigger] prev[i] == #[trigger] next[j] implies m.contains_key(
                j,
            ) && m[j] == i by {
                if nb <= j < nb + len {
                    assert(a[r.0 + (j - nb)] == b[r.1 + (j - nb)]);
                    assert(prev[j - nb + pa] == next[j]);
                } else if pa <= i < pa + len {
                    assert(a[r.0 + (i - pa)] == b[r.1 + (i - pa)]);
                    assert(next[i - pa + nb] == prev[i]);
                } else if i < pa && j < nb {
                } else if i >= pa + len && j >= nb + len {
                } else if i < pa {
                    assert(prev[pa] == next[nb]);
                } else {
                    assert(prev[pa] == next[nb]);
                }
            }
        }
    }
}

/// Identity is kept for every key the two sides share: where the keys are
/// distinct on each side and the shared keys keep their relative order,
/// each next item whose key was present before takes over the state of the
/// previous item with that key. No item with such a key is razed or built.
pub proof fn lemma_align_keeps_common<K>(prev: Seq<K>, next: Seq<K>)
    requires
        distinct(prev),
        distinct(next),
        same_order(prev, next),
    ensures
        forall|i: int, j: int|
            0 <= i < prev.len() && 0 <= j < next.len() && #[trigger] prev[i] == #[trigger] next[j]
                ==> align_all(prev, next).contains_key(j) && align_all(prev, next)[j] == i,
{
    lemma_align_keeps_common_range(prev, 0, prev.len() as int, next, 0, next.len() as int);
}

/// Aligning a key sequence with itself matches every position to itself:
/// reconciling an unchanged list patches every item and razes or builds
/// none.
pub proof fn lemma_align_unchanged<K>(keys: Seq<K>)
    ensures
        forall|j: int| #[trigger] align_all(keys, keys).contains_key(j) <==> 0 <= j < keys.len(),
        forall|j: int| 0 <= j < keys.len() ==> #[trigger] align_all(keys, keys)[j] == j,
{
    let n = keys.len() as int;
    if n > 0 {
        let a = keys.subrange(0, n);
        assert(a =~= keys);
        lemma_split(a, a);
        assert(best_key_run(a, a, 0, 0, n));
        lemma_best_key_run_unique(a, a, split(a, a), (0, 0, n));
        let m = align_all(keys, keys);
        assert(align(keys, 0, 0, keys, 0, 0) == Map::<int, int>::empty());
        assert(align(keys, n, n, keys, n, n) == Map::<int, int>::empty());
        assert(m =~= Map::new(|j: int| 0 <= j < n, |j: int| j));
    }
}

} // verus!
