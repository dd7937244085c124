//! Longest matching run between two sequences under a caller-supplied
//! equality predicate.

use vstd::prelude::*;

verus! {

/// `eq` answers the same way every time it is asked about the same pair.
pub open spec fn deterministic<A, B, F: Fn(&A, &B) -> bool>(eq: F) -> bool {
    forall|x: &A, y: &B, r1: bool, r2: bool|
        #[trigger] eq.ensures((x, y), r1) && #[trigger] eq.ensures((x, y), r2) ==> r1 == r2
}

/// `eq` may be asked about any pair.
pub open spec fn total<A, B, F: Fn(&A, &B) -> bool>(eq: F) -> bool {
    forall|x: &A, y: &B| #[trigger] eq.requires((x, y))
}

/// `eq` holds of `x` and `y`.
pub open spec fn agrees<A, B, F: Fn(&A, &B) -> bool>(eq: F, x: A, y: B) -> bool {
    eq.ensures((&x, &y), true)
}

/// `eq` has given an answer about `x` and `y`.
pub open spec fn decided<A, B, F: Fn(&A, &B) -> bool>(eq: F, x: A, y: B) -> bool {
    eq.ensures((&x, &y), true) || eq.ensures((&x, &y), false)
}

/// `a[sa .. sa + len]` matches `b[sb .. sb + len]` element by element.
pub open spec fn is_run<A, B, F: Fn(&A, &B) -> bool>(
    eq: F,
    a: Seq<A>,
    b: Seq<B>,
    sa: int,
    sb: int,
    len: int,
) -> bool {
    &&& 0 <= sa
    &&& 0 <= sb
    &&& 0 <= len
    &&& sa + len <= a.len()
    &&& sb + len <= b.len()
    &&& forall|k: int| 0 <= k < len ==> #[trigger] agrees(eq, a[sa + k], b[sb + k])
}

/// Start `(sa, sb)` comes no later than `(sa2, sb2)`: first by the offset in
/// the first sequence, then by the offset in the second.
pub open spec fn precedes(sa: int, sb: int, sa2: int, sb2: int) -> bool {
    sa < sa2 || (sa == sa2 && sb <= sb2)
}

/// `(sa, sb, len)` is a longest run, and the earliest of the longest ones.
pub open spec fn is_best_run<A, B, F: Fn(&A, &B) -> bool>(
    eq: F,
    a: Seq<A>,
    b: Seq<B>,
    sa: int,
    sb: int,
    len: int,
) -> bool {
    &&& is_run(eq, a, b, sa, sb, len)
    &&& forall|sa2: int, sb2: int, len2: int|
        #[trigger] is_run(eq, a, b, sa2, sb2, len2) ==> len2 <= len && (len2 == len ==> precedes(
            sa,
            sb,
            sa2,
            sb2,
        ))
}

/// Length of the longest run that ends just before `a[i]` and `b[j]`.
pub open spec fn run_ending<A, B, F: Fn(&A, &B) -> bool>(
    eq: F,
    a: Seq<A>,
    b: Seq<B>,
    i: int,
    j: int,
) -> nat
    decreases i,
{
    if i <= 0 || j <= 0 || i > a.len() || j > b.len() {
        0
    } else if agrees(eq, a[i - 1], b[j - 1]) {
        1 + run_ending(eq, a, b, i - 1, j - 1)
    } else {
        0
    }
}

proof fn lemma_run_ending_is_run<A, B, F: Fn(&A, &B) -> bool>(
    eq: F,
    a: Seq<A>,
    b: Seq<B>,
    i: int,
    j: int,
)
    requires
        0 <= i <= a.len(),
        0 <= j <= b.len(),
    ensures
        is_run(
            eq,
            a,
            b,
            i - run_ending(eq, a, b, i, j),
            j - run_ending(eq, a, b, i, j),
            run_ending(eq, a, b, i, j) as int,
        ),
    decreases i,
{
    let l = run_ending(eq, a, b, i, j) as int;
    if l > 0 {
        lemma_run_ending_is_run(eq, a, b, i - 1, j - 1);
        assert forall|k: int| 0 <= k < l implies #[trigger] agrees(
            eq,
            a[i - l + k],
            b[j - l + k],
        ) by {
            if k < l - 1 {
                assert(agrees(eq, a[(i - 1) - (l - 1) + k], b[(j - 1) - (l - 1) + k]));
            }
        }
    }
}

proof fn lemma_run_bounds_ending<A, B, F: Fn(&A, &B) -> bool>(
    eq: F,
    a: Seq<A>,
    b: Seq<B>,
    sa: int,
    sb: int,
    len: int,
)
    requires
        is_run(eq, a, b, sa, sb, len),
    ensures
        run_ending(eq, a, b, sa + len, sb + len) >= len,
    decreases len,
{
    if len > 0 {
        assert(agrees(eq, a[sa + (len - 1)], b[sb + (len - 1)]));
        lemma_run_bounds_ending(eq, a, b, sa, sb, len - 1);
    }
}

/// The best run is unique: whatever computes it, twice on the same inputs,
/// gives the same start offsets and the same length.
pub proof fn lemma_best_run_unique<A, B, F: Fn(&A, &B) -> bool>(
    eq: F,
    a: Seq<A>,
    b: Seq<B>,
    r1: (int, int, int),
    r2: (int, int, int),
)
    requires
        is_best_run(eq, a, b, r1.0, r1.1, r1.2),
        is_best_run(eq, a, b, r2.0, r2.1, r2.2),
    ensures
        r1 == r2,
{
    assert(is_run(eq, a, b, r2.0, r2.1, r2.2));
    assert(is_run(eq, a, b, r1.0, r1.1, r1.2));
}

/// Finds the longest run `a[sa .. sa + len]` that matches
/// `b[sb .. sb + len]` under `eq`; of several longest runs, the one that
/// starts first in `a` (then first in `b`). With no match at all, or an
/// empty side, the result is `(0, 0, 0)`.
pub fn lcs<A, B, F: Fn(&A, &B) -> bool>(a: &[A], b: &[B], eq: F) -> (r: (usize, usize, usize))
    requires
        total(eq),
        deterministic(eq),
    ensures
        is_best_run(eq, a@, b@, r.0 as int, r.1 as int, r.2 as int),
        forall|x: int, y: int|
            0 <= x < a@.len() && 0 <= y < b@.len() ==> #[trigger] decided(eq, a@[x], b@[y]),
{
    let n = a.len();
    let m = b.len();
    // prev[j] holds the length of the run that ends just before a[i] and b[j].
    let mut prev: Vec<usize> = Vec::new();
    prev.push(0);
    let mut j: usize = 0;
    while j < m
        invariant
            j <= m,
            m == b@.len(),
            prev@.len() == j + 1,
            forall|k: int| 0 <= k <= j ==> prev@[k] == 0,
        decreases m - j,
    {
        prev.push(0);
        j = j + 1;
    }
    let mut best: usize = 0;
    let mut best_a: usize = 0;
    let mut best_b: usize = 0;
    // Rows 0 ..= i are done.
    let mut i: usize = 0;
    while i < n
        invariant
            i <= n,
            n == a@.len(),
            m == b@.len(),
            total(eq),
            deterministic(eq),
            prev@.len() == m + 1,
            forall|k: int| 0 <= k <= m ==> prev@[k] == run_ending(eq, a@, b@, i as int, k),
            is_run(eq, a@, b@, best_a as int, best_b as int, best as int),
            best == 0 ==> best_a == 0 && best_b == 0,
            best > 0 ==> run_ending(eq, a@, b@, best_a + best, best_b + best) == best,
            forall|x: int, y: int|
                0 <= x <= i && 0 <= y <= m ==> #[trigger] run_ending(eq, a@, b@, x, y) <= best,
            best > 0 ==> best_a + best <= i,
            forall|x: int, y: int|
                0 <= x <= i && 0 <= y <= m && #[trigger] run_ending(eq, a@, b@, x, y) == best
                    && best > 0 ==> precedes(best_a + best, best_b + best, x, y),
            forall|x: int, y: int| 0 <= x < i && 0 <= y < m ==> #[trigger] decided(eq, a@[x], b@[y]),
        decreases n - i,
    {
        let mut cur: Vec<usize> = Vec::new();
        cur.push(0);
        // Columns 0 ..= j of row i + 1 are done.
        let mut j: usize = 0;
        while j < m
            invariant
                i < n,
                j <= m,
                n == a@.len(),
                m == b@.len(),
                total(eq),
                deterministic(eq),
                prev@.len() == m + 1,
                forall|k: int| 0 <= k <= m ==> prev@[k] == run_ending(eq, a@, b@, i as int, k),
                cur@.len() == j + 1,
                forall|k: int| 0 <= k <= j ==> cur@[k] == run_ending(eq, a@, b@, i + 1, k),
                is_run(eq, a@, b@, best_a as int, best_b as int, best as int),
                best == 0 ==> best_a == 0 && best_b == 0,
                best > 0 ==> run_ending(eq, a@, b@, best_a + best, best_b + best) == best,
                forall|x: int, y: int|
                    (0 <= x <= i && 0 <= y <= m) || (x == i + 1 && 0 <= y <= j) ==> #[trigger] run_ending(
                        eq,
                        a@,
                        b@,
                        x,
                        y,
                    ) <= best,
                best > 0 ==> best_a + best <= i + 1,
                best > 0 && best_a + best == i + 1 ==> best_b + best <= j,
                forall|x: int, y: int|
                    ((0 <= x <= i && 0 <= y <= m) || (x == i + 1 && 0 <= y <= j)) && #[trigger] run_ending(
                        eq,
                        a@,
                        b@,
                        x,
                        y,
                    ) == best && best > 0 ==> precedes(best_a + best, best_b + best, x, y),
                forall|x: int, y: int|
                    (0 <= x < i && 0 <= y < m) || (x == i && 0 <= y < j) ==> #[trigger] decided(
                        eq,
                        a@[x],
                        b@[y],
                    ),
            decreases m - j,
        {
            let same = eq(&a[i], &b[j]);
            let len: usize = if same {
                prev[j] + 1
            } else {
                0
            };
            proof {
                assert(decided(eq, a@[i as int], b@[j as int]));
                if same {
                    assert(agrees(eq, a@[i as int], b@[j as int]));
                } else {
                    assert(!agrees(eq, a@[i as int], b@[j as int]));
                }
                assert(len == run_ending(eq, a@, b@, i + 1, j + 1));
            }
            cur.push(len);
            if len > best {
                proof {
                    lemma_run_ending_is_run(eq, a@, b@, i + 1, j + 1);
                }
                best = len;
                best_a = i + 1 - len;
                best_b = j + 1 - len;
            }
            j = j + 1;
        }
        prev = cur;
        i = i + 1;
    }
    proof {
        assert forall|sa2: int, sb2: int, len2: int| #[trigger]
            is_run(eq, a@, b@, sa2, sb2, len2) implies len2 <= best && (len2 == best ==> precedes(
            best_a as int,
            best_b as int,
            sa2,
            sb2,
        )) by {
            if len2 > 0 {
                lemma_run_bounds_ending(eq, a@, b@, sa2, sb2, len2);
                assert(run_ending(eq, a@, b@, sa2 + len2, sb2 + len2) <= best);
            }
        }
    }
    (best_a, best_b, best)
}

} // verus!
