use vstd::prelude::*;

verus! {

/// `rel(a, b)` says that item `a` may stand before item `b`; on items `0..n` it is
/// total and transitive.
pub open spec fn is_total_preorder(rel: spec_fn(int, int) -> bool, n: nat) -> bool {
    &&& forall|a: int, b: int| 0 <= a < n && 0 <= b < n ==> #[trigger] rel(a, b) || rel(b, a)
    &&& forall|a: int, b: int, c: int|
        0 <= a < n && 0 <= b < n && 0 <= c < n && #[trigger] rel(a, b) && #[trigger] rel(b, c)
            ==> rel(a, c)
}

/// `order` lists the items `0..n`, each once, so that every item may stand before
/// the items after it, and items that tie keep their original relative order: the
/// result of a stable sort.
pub open spec fn is_stable_sort(order: Seq<usize>, n: nat, rel: spec_fn(int, int) -> bool) -> bool {
    &&& order.len() == n
    &&& forall|k: int| 0 <= k < order.len() ==> #[trigger] order[k] < n
    &&& order.no_duplicates()
    &&& forall|x: usize| x < n ==> #[trigger] order.contains(x)
    &&& forall|k1: int, k2: int|
        0 <= k1 < k2 < order.len() ==> rel(#[trigger] order[k1] as int, #[trigger] order[k2] as int)
    &&& forall|k1: int, k2: int|
        0 <= k1 < k2 < order.len() && rel(#[trigger] order[k2] as int, #[trigger] order[k1] as int)
            ==> order[k1] < order[k2]
}

proof fn lemma_insert_keeps_stable(
    s: Seq<usize>,
    x: usize,
    k: int,
    rel: spec_fn(int, int) -> bool,
    n: nat,
)
    requires
        x < n,
        is_total_preorder(rel, n),
        is_stable_sort(s, x as nat, rel),
        0 <= k <= s.len(),
        forall|j: int| 0 <= j < k ==> rel(#[trigger] s[j] as int, x as int),
        k < s.len() ==> !rel(s[k] as int, x as int),
    ensures
        is_stable_sort(s.insert(k, x), (x + 1) as nat, rel),
{
    let t = s.insert(k, x);
    assert forall|j: int| k <= j < s.len() implies !rel(#[trigger] s[j] as int, x as int) && rel(
        x as int,
        s[j] as int,
    ) by {
        if rel(s[j] as int, x as int) {
            assert(rel(s[k] as int, s[j] as int) || k == j);
            assert(rel(s[k] as int, x as int));
        }
        assert(rel(s[j] as int, x as int) || rel(x as int, s[j] as int));
    }
    assert forall|j: int| 0 <= j < t.len() implies #[trigger] t[j] < x + 1 by {
        if j < k {
            assert(t[j] == s[j]);
        } else if j > k {
            assert(t[j] == s[j - 1]);
        }
    }
    assert forall|i: int, j: int| 0 <= i < t.len() && 0 <= j < t.len() && i != j implies t[i]
        != t[j] by {
        if i != k && j != k {
            let si = if i < k { i } else { i - 1 };
            let sj = if j < k { j } else { j - 1 };
            assert(t[i] == s[si] && t[j] == s[sj]);
        } else if i == k {
            let sj = if j < k { j } else { j - 1 };
            assert(t[j] == s[sj]);
        } else {
            let si = if i < k { i } else { i - 1 };
            assert(t[i] == s[si]);
        }
    }
    assert forall|y: usize| y < x + 1 implies #[trigger] t.contains(y) by {
        if y == x {
            assert(t[k] == x);
        } else {
            assert(s.contains(y));
            let j = choose|j: int| 0 <= j < s.len() && s[j] == y;
            if j < k {
                assert(t[j] == y);
            } else {
                assert(t[j + 1] == y);
            }
        }
    }
    assert forall|k1: int, k2: int| 0 <= k1 < k2 < t.len() implies rel(
        #[trigger] t[k1] as int,
        #[trigger] t[k2] as int,
    ) && (rel(t[k2] as int, t[k1] as int) ==> t[k1] < t[k2]) by {
        let s1 = if k1 < k { k1 } else { k1 - 1 };
        let s2 = if k2 < k { k2 } else { k2 - 1 };
        if k1 == k {
            assert(t[k2] == s[s2]);
        } else if k2 == k {
            assert(t[k1] == s[s1]);
        } else {
            assert(t[k1] == s[s1] && t[k2] == s[s2]);
        }
    }
}

/// Stably sorts the items `0..n`: `may_precede(a, b)` tells whether item `a` may
/// stand before item `b`.
pub(crate) fn stable_sort<F: Fn(usize, usize) -> bool>(
    n: usize,
    may_precede: &F,
    Ghost(rel): Ghost<spec_fn(int, int) -> bool>,
) -> (order: Vec<usize>)
    requires
        is_total_preorder(rel, n as nat),
        forall|a: usize, b: usize| a < n && b < n ==> #[trigger] may_precede.requires((a, b)),
        forall|a: usize, b: usize, r: bool|
            a < n && b < n && #[trigger] may_precede.ensures((a, b), r) ==> r == rel(
                a as int,
                b as int,
            ),
    ensures
        is_stable_sort(order@, n as nat, rel),
{
    let mut order: Vec<usize> = Vec::new();
    let mut x: usize = 0;
    while x < n
        invariant
            x <= n,
            is_total_preorder(rel, n as nat),
            forall|a: usize, b: usize| a < n && b < n ==> #[trigger] may_precede.requires((a, b)),
            forall|a: usize, b: usize, r: bool|
                a < n && b < n && #[trigger] may_precede.ensures((a, b), r) ==> r == rel(
                    a as int,
                    b as int,
                ),
            is_stable_sort(order@, x as nat, rel),
        decreases n - x,
    {
        let mut k: usize = 0;
        while k < order.len()
            invariant
                x < n,
                k <= order@.len(),
                order@.len() == x,
                forall|a: usize, b: usize| a < n && b < n ==> #[trigger] may_precede.requires((a, b)),
                forall|a: usize, b: usize, r: bool|
                    a < n && b < n && #[trigger] may_precede.ensures((a, b), r) ==> r == rel(
                        a as int,
                        b as int,
                    ),
                is_stable_sort(order@, x as nat, rel),
                forall|j: int| 0 <= j < k ==> rel(#[trigger] order@[j] as int, x as int),
            ensures
                k <= order@.len(),
                forall|j: int| 0 <= j < k ==> rel(#[trigger] order@[j] as int, x as int),
                k < order@.len() ==> !rel(order@[k as int] as int, x as int),
            decreases order@.len() - k,
        {
            let y = order[k];
            assert(y < n);
            if !may_precede(y, x) {
                break;
            }
            k = k + 1;
        }
        proof {
            lemma_insert_keeps_stable(order@, x, k as int, rel, n as nat);
        }
        order.insert(k, x);
        x = x + 1;
    }
    order
}


/// A stable sort is unique: two orders that both stably sort the same items by the
/// same total preorder are equal.
pub proof fn lemma_stable_sort_unique(
    o1: Seq<usize>,
    o2: Seq<usize>,
    n: nat,
    rel: spec_fn(int, int) -> bool,
)
    requires
        is_stable_sort(o1, n, rel),
        is_stable_sort(o2, n, rel),
    ensures
        o1 == o2,
{
    if exists|k: int| 0 <= k < n && o1[k] != o2[k] {
        let k = choose|k: int| 0 <= k < n && o1[k] != o2[k] && forall|i: int|
            0 <= i < k ==> o1[i] == o2[i];
        assert(exists|k: int|
            0 <= k < n && o1[k] != o2[k] && forall|i: int| 0 <= i < k ==> o1[i] == o2[i]) by {
            let k0 = choose|k: int| 0 <= k < n && o1[k] != o2[k];
            lemma_first_difference(o1, o2, k0);
        }
        let x = o1[k];
        let y = o2[k];
        assert(o1.contains(y));
        let j = choose|j: int| 0 <= j < o1.len() && o1[j] == y;
        assert(o2.contains(x));
        let j2 = choose|j: int| 0 <= j < o2.len() && o2[j] == x;
        if j < k {
            assert(o2[j] == y);
        }
        if j2 < k {
            assert(o1[j2] == x);
        }
        assert(rel(x as int, y as int));
        assert(rel(y as int, x as int));
    }
    assert(o1 =~= o2);
}

proof fn lemma_first_difference(o1: Seq<usize>, o2: Seq<usize>, k0: int)
    requires
        0 <= k0 < o1.len(),
        o1.len() == o2.len(),
        o1[k0] != o2[k0],
    ensures
        exists|k: int|
            0 <= k < o1.len() && o1[k] != o2[k] && forall|i: int| 0 <= i < k ==> o1[i] == o2[i],
    decreases k0,
{
    if exists|i: int| 0 <= i < k0 && o1[i] != o2[i] {
        let i = choose|i: int| 0 <= i < k0 && o1[i] != o2[i];
        lemma_first_difference(o1, o2, i);
    } else {
        assert(forall|i: int| 0 <= i < k0 ==> o1[i] == o2[i]);
    }
}

} // verus!
