//! The mathematical model of a parent-pointer forest.
//!
//! A union-find's parent mapping is modelled as a `Map<usize, usize>` from
//! each key to its parent key. A key whose parent is itself is a *root* (a
//! representative). The mapping is well formed ([`wf_map`]) when every parent
//! pointer stays inside the key set and every key reaches a root after
//! finitely many steps; [`repr`] is that root. The lemmas below justify the
//! three mutations the data structure performs: repointing a key directly at
//! its representative (path compression), repointing one root at another
//! (union), and inserting a fresh self-parented key (growth).

use vstd::prelude::*;
use vstd::set_lib::lemma_len_subset;

verus! {

/// The key reached from `k` after `n` parent-pointer steps in `m`.
pub open spec fn chase(m: Map<usize, usize>, k: usize, n: nat) -> usize
    decreases n,
{
    if n == 0 {
        k
    } else {
        chase(m, m[k], (n - 1) as nat)
    }
}

/// `k` is a representative: it is stored and is its own parent.
pub open spec fn is_root(m: Map<usize, usize>, k: usize) -> bool {
    m.dom().contains(k) && m[k] == k
}

/// Some number of parent steps from `k` reaches a representative.
pub open spec fn rooted(m: Map<usize, usize>, k: usize) -> bool {
    exists|n: nat| is_root(m, chase(m, k, n))
}

/// The representative of `k`'s class (meaningful when `rooted(m, k)`).
pub open spec fn repr(m: Map<usize, usize>, k: usize) -> usize {
    chase(m, k, choose|n: nat| is_root(m, chase(m, k, n)))
}

/// Every stored parent pointer aims at a stored key.
pub open spec fn closed(m: Map<usize, usize>) -> bool {
    forall|k: usize| m.dom().contains(k) ==> m.dom().contains(#[trigger] m[k])
}

/// The parent mapping is a forest over a finite key set.
pub open spec fn wf_map(m: Map<usize, usize>) -> bool {
    &&& m.dom().finite()
    &&& closed(m)
    &&& forall|k: usize| m.dom().contains(k) ==> rooted(m, k)
}

/// What a lookup of `k`'s representative returns.
pub open spec fn spec_find(m: Map<usize, usize>, k: usize) -> Option<usize> {
    if m.dom().contains(k) {
        Some(repr(m, k))
    } else {
        None
    }
}

/// The set of representatives.
pub open spec fn roots_of(m: Map<usize, usize>) -> Set<usize> {
    m.dom().filter(|k: usize| m[k] == k)
}

/// How many representatives there are.
pub open spec fn num_roots(m: Map<usize, usize>) -> nat {
    roots_of(m).len()
}

/// The representative of `k` after the classes of `ra` and `rb` (two roots)
/// have been merged into the single class represented by `w`.
pub open spec fn merged_repr(
    m: Map<usize, usize>,
    ra: usize,
    rb: usize,
    w: usize,
    k: usize,
) -> usize {
    if repr(m, k) == ra || repr(m, k) == rb {
        w
    } else {
        repr(m, k)
    }
}

/// Chasing `n1 + n2` steps is chasing `n1` steps, then `n2` more.
pub proof fn lemma_chase_add(m: Map<usize, usize>, k: usize, n1: nat, n2: nat)
    ensures
        chase(m, k, n1 + n2) == chase(m, chase(m, k, n1), n2),
    decreases n1,
{
    if n1 > 0 {
        lemma_chase_add(m, m[k], (n1 - 1) as nat, n2);
    }
}

/// A representative is a fixed point of the chase.
pub proof fn lemma_root_fixed(m: Map<usize, usize>, r: usize, n: nat)
    requires
        is_root(m, r),
    ensures
        chase(m, r, n) == r,
    decreases n,
{
    if n > 0 {
        lemma_root_fixed(m, r, (n - 1) as nat);
    }
}

/// Two chases from the same key that both end in a representative end in the
/// same one.
pub proof fn lemma_root_unique(m: Map<usize, usize>, k: usize, n1: nat, n2: nat)
    requires
        is_root(m, chase(m, k, n1)),
        is_root(m, chase(m, k, n2)),
    ensures
        chase(m, k, n1) == chase(m, k, n2),
{
    if n1 <= n2 {
        lemma_chase_add(m, k, n1, (n2 - n1) as nat);
        lemma_root_fixed(m, chase(m, k, n1), (n2 - n1) as nat);
    } else {
        lemma_chase_add(m, k, n2, (n1 - n2) as nat);
        lemma_root_fixed(m, chase(m, k, n2), (n1 - n2) as nat);
    }
}

/// `repr` is the unique representative any chase from `k` can reach.
pub proof fn lemma_repr(m: Map<usize, usize>, k: usize)
    requires
        rooted(m, k),
    ensures
        is_root(m, repr(m, k)),
        forall|n: nat| is_root(m, #[trigger] chase(m, k, n)) ==> chase(m, k, n) == repr(m, k),
{
    let n0 = choose|n: nat| is_root(m, chase(m, k, n));
    assert forall|n: nat| is_root(m, #[trigger] chase(m, k, n)) implies chase(m, k, n) == repr(
        m,
        k,
    ) by {
        lemma_root_unique(m, k, n, n0);
    }
}

/// A representative is its own representative.
pub proof fn lemma_repr_of_root(m: Map<usize, usize>, r: usize)
    requires
        is_root(m, r),
    ensures
        rooted(m, r),
        repr(m, r) == r,
{
    assert(is_root(m, chase(m, r, 0)));
    lemma_repr(m, r);
}

/// Stepping from a non-root key to its parent keeps the representative.
pub proof fn lemma_repr_step(m: Map<usize, usize>, k: usize)
    requires
        rooted(m, k),
        m.dom().contains(k),
        m[k] != k,
    ensures
        rooted(m, m[k]),
        repr(m, m[k]) == repr(m, k),
{
    let n0 = choose|n: nat| is_root(m, chase(m, k, n));
    assert(n0 > 0) by {
        if n0 == 0 {
            assert(chase(m, k, 0) == k);
        }
    }
    assert(chase(m, k, n0) == chase(m, m[k], (n0 - 1) as nat));
    assert(is_root(m, chase(m, m[k], (n0 - 1) as nat)));
    lemma_repr(m, k);
    lemma_repr(m, m[k]);
}

/// A plain `find` and a compressing `find` agree: whenever two mappings hold
/// the same keys and give every key the same representative — as the ensures
/// of the compressing find states of the mappings before and after it — every
/// key's find result is the same in both.
pub proof fn lemma_spec_find_preserved(m1: Map<usize, usize>, m2: Map<usize, usize>)
    requires
        m2.dom() == m1.dom(),
        forall|k: usize| m1.dom().contains(k) ==> #[trigger] repr(m2, k) == repr(m1, k),
    ensures
        forall|k: usize| #[trigger] spec_find(m2, k) == spec_find(m1, k),
{
}

/// Every stored key has a representative to return.
pub proof fn lemma_find_some(m: Map<usize, usize>, k: usize)
    requires
        wf_map(m),
        m.dom().contains(k),
    ensures
        spec_find(m, k) is Some,
        spec_find(m, k) == Some(repr(m, k)),
{
}

/// There are never more representatives than keys.
pub proof fn lemma_num_roots_le(m: Map<usize, usize>)
    requires
        m.dom().finite(),
    ensures
        roots_of(m).finite(),
        num_roots(m) <= m.dom().len(),
{
    m.dom().lemma_len_filter(|k: usize| m[k] == k);
}

proof fn lemma_compress_rec(m: Map<usize, usize>, j: usize, r: usize, k: usize, n: nat)
    requires
        closed(m),
        m.dom().contains(j),
        rooted(m, j),
        r == repr(m, j),
        m.dom().contains(k),
        is_root(m, chase(m, k, n)),
    ensures
        rooted(m.insert(j, r), k),
        repr(m.insert(j, r), k) == repr(m, k),
    decreases n,
{
    let m2 = m.insert(j, r);
    lemma_repr(m, j);
    assert(is_root(m2, r));
    assert(rooted(m, k)) by {
        assert(is_root(m, chase(m, k, n)));
    }
    lemma_repr(m, k);
    if m[k] == k {
        lemma_repr_of_root(m, k);
        if k == j {
            assert(r == k);
            lemma_repr_of_root(m2, k);
        } else {
            assert(is_root(m2, k));
            lemma_repr_of_root(m2, k);
        }
    } else if k == j {
        assert(chase(m2, m2[j], 0) == m2[j]);
        assert(chase(m2, j, 1) == r);
        assert(is_root(m2, chase(m2, j, 1)));
        lemma_repr(m2, j);
    } else {
        assert(n > 0) by {
            if n == 0 {
                assert(chase(m, k, 0) == k);
            }
        }
        assert(chase(m, k, n) == chase(m, m[k], (n - 1) as nat));
        lemma_compress_rec(m, j, r, m[k], (n - 1) as nat);
        let n2 = choose|i: nat| is_root(m2, chase(m2, m[k], i));
        assert(chase(m2, k, n2 + 1) == chase(m2, m2[k], n2));
        assert(m2[k] == m[k]);
        assert(is_root(m2, chase(m2, k, n2 + 1)));
        lemma_repr_step(m2, k);
        lemma_repr_step(m, k);
    }
}

/// Path compression: repointing a stored key directly at its representative
/// keeps the mapping a forest, keeps the key set and the set of
/// representatives, and changes no key's representative.
pub proof fn lemma_compress(m: Map<usize, usize>, j: usize, r: usize)
    requires
        wf_map(m),
        m.dom().contains(j),
        r == repr(m, j),
    ensures
        wf_map(m.insert(j, r)),
        m.insert(j, r).dom() == m.dom(),
        forall|k: usize| m.dom().contains(k) ==> rooted(m.insert(j, r), k) && repr(
            m.insert(j, r),
            k,
        ) == repr(m, k),
        roots_of(m.insert(j, r)) == roots_of(m),
{
    let m2 = m.insert(j, r);
    lemma_repr(m, j);
    assert(m2.dom() =~= m.dom());
    assert forall|k: usize| m.dom().contains(k) implies rooted(m2, k) && repr(m2, k) == repr(
        m,
        k,
    ) by {
        assert(rooted(m, k));
        let n = choose|i: nat| is_root(m, chase(m, k, i));
        lemma_compress_rec(m, j, r, k, n);
    }
    assert(closed(m2)) by {
        assert(forall|k: usize| m2.dom().contains(k) ==> m2.dom().contains(#[trigger] m2[k]));
    }
    assert forall|x: usize| roots_of(m2).contains(x) == roots_of(m).contains(x) by {
        if x == j {
            if is_root(m, j) {
                lemma_repr_of_root(m, j);
            } else if m.dom().contains(j) {
                assert(is_root(m, r));
                assert(r != j);
            }
        }
    }
    assert(roots_of(m2) =~= roots_of(m));
}

proof fn lemma_link_rec(m: Map<usize, usize>, r1: usize, r2: usize, k: usize, n: nat)
    requires
        closed(m),
        is_root(m, r1),
        is_root(m, r2),
        r1 != r2,
        m.dom().contains(k),
        is_root(m, chase(m, k, n)),
    ensures
        rooted(m.insert(r1, r2), k),
        repr(m.insert(r1, r2), k) == (if repr(m, k) == r1 {
            r2
        } else {
            repr(m, k)
        }),
    decreases n,
{
    let m2 = m.insert(r1, r2);
    assert(is_root(m2, r2));
    assert(rooted(m, k)) by {
        assert(is_root(m, chase(m, k, n)));
    }
    lemma_repr(m, k);
    if k == r1 {
        lemma_repr_of_root(m, k);
        assert(chase(m2, m2[r1], 0) == m2[r1]);
        assert(chase(m2, r1, 1) == r2);
        assert(is_root(m2, chase(m2, r1, 1)));
        lemma_repr(m2, r1);
    } else if m[k] == k {
        lemma_repr_of_root(m, k);
        assert(is_root(m2, k));
        lemma_repr_of_root(m2, k);
    } else {
        assert(n > 0) by {
            if n == 0 {
                assert(chase(m, k, 0) == k);
            }
        }
        assert(chase(m, k, n) == chase(m, m[k], (n - 1) as nat));
        lemma_link_rec(m, r1, r2, m[k], (n - 1) as nat);
        let n2 = choose|i: nat| is_root(m2, chase(m2, m[k], i));
        assert(chase(m2, k, n2 + 1) == chase(m2, m2[k], n2));
        assert(m2[k] == m[k]);
        assert(is_root(m2, chase(m2, k, n2 + 1)));
        lemma_repr_step(m2, k);
        lemma_repr_step(m, k);
    }
}

/// Union: repointing the root `r1` at another root `r2` keeps the mapping a
/// forest, keeps the key set, removes `r1` from the representatives, and
/// redirects exactly the keys represented by `r1` to `r2`.
pub proof fn lemma_link(m: Map<usize, usize>, r1: usize, r2: usize)
    requires
        wf_map(m),
        is_root(m, r1),
        is_root(m, r2),
        r1 != r2,
    ensures
        wf_map(m.insert(r1, r2)),
        m.insert(r1, r2).dom() == m.dom(),
        forall|k: usize| m.dom().contains(k) ==> rooted(m.insert(r1, r2), k) && repr(
            m.insert(r1, r2),
            k,
        ) == (if repr(m, k) == r1 {
            r2
        } else {
            repr(m, k)
        }),
        roots_of(m.insert(r1, r2)) == roots_of(m).remove(r1),
        num_roots(m.insert(r1, r2)) == num_roots(m) - 1,
{
    let m2 = m.insert(r1, r2);
    assert(m2.dom() =~= m.dom());
    assert forall|k: usize| m.dom().contains(k) implies rooted(m2, k) && repr(m2, k) == (if repr(
        m,
        k,
    ) == r1 {
        r2
    } else {
        repr(m, k)
    }) by {
        assert(rooted(m, k));
        let n = choose|i: nat| is_root(m, chase(m, k, i));
        lemma_link_rec(m, r1, r2, k, n);
    }
    assert forall|x: usize| roots_of(m2).contains(x) == roots_of(m).remove(r1).contains(x) by {
    }
    assert(roots_of(m2) =~= roots_of(m).remove(r1));
    lemma_num_roots_le(m);
    assert(roots_of(m).contains(r1));
    vstd::set::axiom_set_remove_len(roots_of(m), r1);
}

proof fn lemma_grow_rec(m: Map<usize, usize>, x: usize, k: usize, n: nat)
    requires
        closed(m),
        !m.dom().contains(x),
        m.dom().contains(k),
        is_root(m, chase(m, k, n)),
    ensures
        rooted(m.insert(x, x), k),
        repr(m.insert(x, x), k) == repr(m, k),
    decreases n,
{
    let m2 = m.insert(x, x);
    assert(rooted(m, k)) by {
        assert(is_root(m, chase(m, k, n)));
    }
    lemma_repr(m, k);
    if m[k] == k {
        lemma_repr_of_root(m, k);
        assert(is_root(m2, k));
        lemma_repr_of_root(m2, k);
    } else {
        assert(n > 0) by {
            if n == 0 {
                assert(chase(m, k, 0) == k);
            }
        }
        assert(chase(m, k, n) == chase(m, m[k], (n - 1) as nat));
        lemma_grow_rec(m, x, m[k], (n - 1) as nat);
        let n2 = choose|i: nat| is_root(m2, chase(m2, m[k], i));
        assert(chase(m2, k, n2 + 1) == chase(m2, m2[k], n2));
        assert(m2[k] == m[k]);
        assert(is_root(m2, chase(m2, k, n2 + 1)));
        lemma_repr_step(m2, k);
        lemma_repr_step(m, k);
    }
}

/// Growth: inserting a fresh key as its own parent keeps the mapping a
/// forest, makes the key its own representative, and changes no existing
/// key's representative.
pub proof fn lemma_grow(m: Map<usize, usize>, x: usize)
    requires
        wf_map(m),
        !m.dom().contains(x),
    ensures
        wf_map(m.insert(x, x)),
        m.insert(x, x).dom() == m.dom().insert(x),
        rooted(m.insert(x, x), x),
        repr(m.insert(x, x), x) == x,
        forall|k: usize| m.dom().contains(k) ==> rooted(m.insert(x, x), k) && repr(
            m.insert(x, x),
            k,
        ) == repr(m, k),
        roots_of(m.insert(x, x)) == roots_of(m).insert(x),
        num_roots(m.insert(x, x)) == num_roots(m) + 1,
{
    let m2 = m.insert(x, x);
    assert(is_root(m2, x));
    lemma_repr_of_root(m2, x);
    assert forall|k: usize| m.dom().contains(k) implies rooted(m2, k) && repr(m2, k) == repr(
        m,
        k,
    ) by {
        assert(rooted(m, k));
        let n = choose|i: nat| is_root(m, chase(m, k, i));
        lemma_grow_rec(m, x, k, n);
    }
    assert forall|y: usize| roots_of(m2).contains(y) == roots_of(m).insert(x).contains(y) by {
    }
    assert(roots_of(m2) =~= roots_of(m).insert(x));
    lemma_num_roots_le(m);
    assert(!roots_of(m).contains(x));
    assert(roots_of(m).insert(x).len() == roots_of(m).len() + 1);
}

/// The outcome of a union does not depend on which of the two merged
/// representatives survives: whether the merged class is represented by `w1`
/// or by `w2`, the two merged keys share a representative afterwards, and any
/// two keys are equivalent after the one merge exactly when they are
/// equivalent after the other.
pub proof fn lemma_union_outcome_commutes(
    m: Map<usize, usize>,
    a: usize,
    b: usize,
    w1: usize,
    w2: usize,
)
    requires
        wf_map(m),
        m.dom().contains(a),
        m.dom().contains(b),
        w1 == repr(m, a) || w1 == repr(m, b),
        w2 == repr(m, a) || w2 == repr(m, b),
    ensures
        merged_repr(m, repr(m, a), repr(m, b), w1, a) == merged_repr(m, repr(m, a), repr(m, b), w1, b),
        forall|j: usize, k: usize|
            m.dom().contains(j) && m.dom().contains(k) ==> ((#[trigger] merged_repr(
                m,
                repr(m, a),
                repr(m, b),
                w1,
                j,
            ) == merged_repr(m, repr(m, a), repr(m, b), w1, k)) <==> (merged_repr(
                m,
                repr(m, a),
                repr(m, b),
                w2,
                j,
            ) == #[trigger] merged_repr(m, repr(m, a), repr(m, b), w2, k))),
{
    let ra = repr(m, a);
    let rb = repr(m, b);
    assert forall|j: usize, k: usize|
        m.dom().contains(j) && m.dom().contains(k) implies ((#[trigger] merged_repr(
        m,
        ra,
        rb,
        w1,
        j,
    ) == merged_repr(m, ra, rb, w1, k)) <==> (merged_repr(m, ra, rb, w2, j)
        == #[trigger] merged_repr(m, ra, rb, w2, k))) by {
        lemma_repr(m, j);
        lemma_repr(m, k);
        lemma_repr(m, a);
        lemma_repr(m, b);
    }
}

} // verus!
