//! The union-find structure: find, path compression, union, and growth.

use crate::extra::{DuplicateElement, Extra, GrowableExtra};
use crate::forest::{
    chase, is_root, lemma_compress, lemma_grow, lemma_link, lemma_num_roots_le,
    lemma_repr, lemma_repr_of_root, lemma_repr_step, merged_repr, num_roots, repr, rooted,
    roots_of, spec_find, wf_map,
};
use std::collections::HashMap;
use vstd::prelude::*;

verus! {

broadcast use vstd::std_specs::hash::group_hash_axioms;

/// A union-find data structure over `usize` keys.
///
/// Every stored key points at a parent key; a key that is its own parent
/// represents its equivalence class. The `extra` slot holds per-key metadata
/// under the chosen [`Extra`] strategy — nothing for `()`, a rank per key for
/// [`ByRank`](crate::extra::ByRank).
pub struct UnionFind<E = ()> {
    /// A mapping from each key to a parent key, for every key. When a key is
    /// in a class on its own, its parent is itself; unions point the old
    /// representatives at the surviving one.
    pub parent: HashMap<usize, usize>,
    /// Extra information for each key (for example a rank), kept over the
    /// same key set as `parent`.
    pub extra: E,
}

/// Why constructing a union-find failed.
#[derive(Clone, Copy, Debug, PartialEq, Eq, Structural)]
pub enum NewUnionFindError<P, E> {
    /// The parent mapping could not be built.
    Parent(P),
    /// The extra-info mapping could not be built.
    Extra(E),
}

/// Why adding a key failed.
#[derive(Clone, Copy, Debug, PartialEq, Eq, Structural)]
pub enum AddError<E, P> {
    /// The key could not be added to the parent mapping.
    Parent(P),
    /// The key could not be added to the extra-info mapping.
    Extra(E),
}

/// The add errors the hash-map-backed mappings produce.
pub type AddErrorSimple = AddError<DuplicateElement, DuplicateElement>;

/// Why a union through a [`Union`] strategy failed.
#[derive(Clone, Copy, Debug, PartialEq, Eq, Structural)]
pub enum UnionError<F> {
    /// The first element given to the union was not found.
    Elem1NotFound,
    /// The second element given to the union was not found.
    Elem2NotFound,
    /// The strategy refused to merge the two classes.
    NotUnionable(F),
}

/// Why a union or an add performed together failed.
#[derive(Clone, Copy, Debug, PartialEq, Eq, Structural)]
pub enum UnionOrAddError<F> {
    /// A key could not be added.
    AddError(AddErrorSimple),
    /// The strategy refused to merge the two classes.
    NotUnionable(F),
}

/// Why a union by rank failed.
#[derive(Clone, Copy, Debug, PartialEq, Eq, Structural)]
pub enum UnionByRankError {
    /// The first element given to the union was not found.
    Elem1NotFound,
    /// The second element given to the union was not found.
    Elem2NotFound,
}

/// When a union is made, the two classes may already have been merged
/// before. This enum disambiguates the two cases.
#[derive(Debug, PartialEq, Eq, PartialOrd, Ord, Clone, Copy, Structural)]
pub enum UnionStatus {
    /// The two elements were already equivalent; nothing was mutated.
    AlreadyEquivalent,
    /// The two classes were distinct and have been merged.
    PerformedUnion,
}

/// A policy deciding which representative survives a merge.
///
/// `union` is invoked only on two distinct current representatives. So that
/// the parent mapping stays a forest, the surviving representative must be
/// one of the two inputs.
pub trait Union {
    /// The strategy's refusal error.
    type Failure;

    /// Whether the strategy merges these two representatives.
    spec fn union_ok(&self, parent1: usize, parent2: usize) -> bool;

    /// The representative the strategy picks.
    spec fn chosen(&self, parent1: usize, parent2: usize) -> usize;

    /// The error the strategy reports when it refuses these two
    /// representatives (meaningful only when `union_ok` does not hold).
    spec fn refusal(&self, parent1: usize, parent2: usize) -> Self::Failure;

    /// Decides the key that becomes the new shared representative, or
    /// refuses the merge.
    fn union(&self, parent1: usize, parent2: usize) -> (r: Result<usize, Self::Failure>)
        ensures
            r is Ok <==> self.union_ok(parent1, parent2),
            r matches Ok(res) ==> res == self.chosen(parent1, parent2) && (res == parent1 || res
                == parent2),
            r matches Err(e) ==> e == self.refusal(parent1, parent2),
    ;
}

/// The trivial union policy: the first representative survives.
pub struct PickFirst;

impl Union for PickFirst {
    type Failure = ();

    open spec fn union_ok(&self, parent1: usize, parent2: usize) -> bool {
        true
    }

    open spec fn chosen(&self, parent1: usize, parent2: usize) -> usize {
        parent1
    }

    open spec fn refusal(&self, parent1: usize, parent2: usize) -> () {
        ()
    }

    fn union(&self, parent1: usize, parent2: usize) -> (r: Result<usize, Self::Failure>) {
        Ok(parent1)
    }
}

/// A union policy that refuses every merge, useful to detect attempted
/// merges between classes that must stay apart.
pub struct NeverUnion;

impl Union for NeverUnion {
    type Failure = ();

    open spec fn union_ok(&self, parent1: usize, parent2: usize) -> bool {
        false
    }

    open spec fn chosen(&self, parent1: usize, parent2: usize) -> usize {
        parent1
    }

    open spec fn refusal(&self, parent1: usize, parent2: usize) -> () {
        ()
    }

    fn union(&self, parent1: usize, parent2: usize) -> (r: Result<usize, Self::Failure>) {
        Err(())
    }
}

impl<E: Extra> UnionFind<E> {
    /// The structure's invariant: the parent mapping is a forest, the
    /// extra-info covers its keys, and under a value-tracking strategy the
    /// stored values are ranks small enough that a rank increment can never
    /// overflow (a representative's rank plus the number of representatives
    /// never exceeds the number of keys).
    pub open spec fn wf(&self) -> bool {
        &&& wf_map(self.parent@)
        &&& forall|k: usize|
            self.parent@.dom().contains(k) ==> self.extra.keys().contains(k)
        &&& E::tracks_values() ==> {
            &&& self.extra.keys() == self.parent@.dom()
            &&& forall|r: usize|
                is_root(self.parent@, r) ==> #[trigger] self.extra.val_of(r) + num_roots(
                    self.parent@,
                ) <= self.parent@.dom().len()
        }
    }

    /// Constructs a new union-find over the given elements, each in a class
    /// of its own. Fails exactly when the elements hold a duplicate:
    /// `Parent` if the parent mapping rejects the duplicate first, `Extra`
    /// if only the extra-info build rejects the elements.
    pub fn new(elems: &Vec<usize>) -> (r: Result<
        Self,
        NewUnionFindError<DuplicateElement, DuplicateElement>,
    >)
        ensures
            r is Ok <==> elems@.no_duplicates() && E::build_ok(elems@),
            !elems@.no_duplicates() ==> r == Err::<
                Self,
                NewUnionFindError<DuplicateElement, DuplicateElement>,
            >(NewUnionFindError::Parent(DuplicateElement)),
            r matches Ok(uf) ==> {
                &&& uf.wf()
                &&& uf.parent@.dom() == elems@.to_set()
                &&& forall|k: usize|
                    elems@.contains(k) ==> #[trigger] repr(uf.parent@, k) == k
                &&& E::tracks_values() ==> forall|k: usize|
                    elems@.contains(k) ==> #[trigger] uf.extra.val_of(k) == 0
            },
    {
        let mut parent: HashMap<usize, usize> = HashMap::new();
        let mut i: usize = 0;
        while i < elems.len()
            invariant
                i <= elems.len(),
                forall|k: usize| #[trigger]
                    parent@.dom().contains(k) <==> exists|j: int| 0 <= j < i && elems@[j] == k,
                forall|k: usize| parent@.dom().contains(k) ==> parent@[k] == k,
                forall|j1: int, j2: int|
                    0 <= j1 < j2 < i ==> #[trigger] elems@[j1] != #[trigger] elems@[j2],
            decreases elems.len() - i,
        {
            let e = elems[i];
            if parent.contains_key(&e) {
                proof {
                    let j = choose|j: int| 0 <= j < i && elems@[j] == e;
                    assert(elems@[j] == elems@[i as int]);
                }
                return Err(NewUnionFindError::Parent(DuplicateElement));
            }
            parent.insert(e, e);
            i = i + 1;
        }
        let extra = match E::default_mapping(elems) {
            Ok(x) => x,
            Err(e2) => {
                return Err(NewUnionFindError::Extra(e2));
            },
        };
        let uf = UnionFind { parent, extra };
        proof {
            let m = uf.parent@;
            assert(m.dom() =~= elems@.to_set());
            assert forall|k: usize| m.dom().contains(k) implies rooted(m, k) && repr(m, k)
                == k by {
                assert(chase(m, k, 0) == k);
                assert(is_root(m, chase(m, k, 0)));
                lemma_repr_of_root(m, k);
            }
            assert(roots_of(m) =~= m.dom());
            if E::tracks_values() {
                assert(uf.extra.keys() == m.dom());
            }
        }
        Ok(uf)
    }
}

impl<E: Extra> UnionFind<E> {
    fn find_rec(&self, elem: usize, Ghost(fuel): Ghost<nat>) -> (r: usize)
        requires
            self.wf(),
            self.parent@.dom().contains(elem),
            is_root(self.parent@, chase(self.parent@, elem, fuel)),
        ensures
            r == repr(self.parent@, elem),
        decreases fuel,
    {
        let m = Ghost(self.parent@);
        let p: usize = *self.parent.get(&elem).unwrap();
        if p == elem {
            proof {
                lemma_repr_of_root(m@, elem);
            }
            elem
        } else {
            proof {
                assert(fuel > 0) by {
                    if fuel == 0 {
                        assert(chase(m@, elem, 0) == elem);
                    }
                }
                assert(chase(m@, elem, fuel) == chase(m@, m@[elem], (fuel - 1) as nat));
                assert(rooted(m@, elem));
                lemma_repr_step(m@, elem);
            }
            self.find_rec(p, Ghost((fuel - 1) as nat))
        }
    }

    /// Finds the representative of `elem`'s class, or nothing if `elem` is
    /// absent. Performs no path shortening, so it works through an immutable
    /// reference.
    ///
    /// Use [`find_shorten`](UnionFind::find_shorten) for a find that
    /// compresses paths as it goes.
    pub fn find(&self, elem: &usize) -> (r: Option<usize>)
        requires
            self.wf(),
        ensures
            r == spec_find(self.parent@, *elem),
    {
        if !self.parent.contains_key(elem) {
            return None;
        }
        proof {
            assert(rooted(self.parent@, *elem));
        }
        let ghost fuel: nat = choose|n: nat| is_root(self.parent@, chase(self.parent@, *elem, n));
        Some(self.find_rec(*elem, Ghost(fuel)))
    }

    fn find_shorten_rec(&mut self, elem: usize, Ghost(fuel): Ghost<nat>) -> (r: usize)
        requires
            old(self).wf(),
            old(self).parent@.dom().contains(elem),
            is_root(old(self).parent@, chase(old(self).parent@, elem, fuel)),
        ensures
            final(self).wf(),
            final(self).extra == old(self).extra,
            final(self).parent@.dom() == old(self).parent@.dom(),
            roots_of(final(self).parent@) == roots_of(old(self).parent@),
            forall|k: usize|
                old(self).parent@.dom().contains(k) ==> #[trigger] repr(final(self).parent@, k)
                    == repr(old(self).parent@, k),
            forall|k: usize|
                old(self).parent@.dom().contains(k) ==> (#[trigger] final(self).parent@[k]) == old(
                    self,
                ).parent@[k] || final(self).parent@[k] == repr(old(self).parent@, k),
            final(self).parent@[elem] == repr(old(self).parent@, elem),
            r == repr(old(self).parent@, elem),
        decreases fuel,
    {
        let ghost m0 = self.parent@;
        let p: usize = *self.parent.get(&elem).unwrap();
        if p == elem {
            proof {
                lemma_repr_of_root(m0, elem);
            }
            elem
        } else {
            proof {
                assert(fuel > 0) by {
                    if fuel == 0 {
                        assert(chase(m0, elem, 0) == elem);
                    }
                }
                assert(chase(m0, elem, fuel) == chase(m0, m0[elem], (fuel - 1) as nat));
                assert(rooted(m0, elem));
                lemma_repr_step(m0, elem);
            }
            let r = self.find_shorten_rec(p, Ghost((fuel - 1) as nat));
            let ghost m1 = self.parent@;
            proof {
                assert(repr(m1, elem) == repr(m0, elem));
                lemma_compress(m1, elem, r);
                assert forall|k: usize| m0.dom().contains(k) implies #[trigger] repr(
                    m1.insert(elem, r),
                    k,
                ) == repr(m0, k) by {
                    assert(repr(m1, k) == repr(m0, k));
                }
                assert forall|k: usize| m0.dom().contains(k) implies (#[trigger] m1.insert(
                    elem,
                    r,
                )[k]) == m0[k] || m1.insert(elem, r)[k] == repr(m0, k) by {
                    if k != elem {
                        assert(m1[k] == m0[k] || m1[k] == repr(m0, k));
                    }
                }
            }
            self.parent.insert(elem, r);
            r
        }
    }

    /// Finds the representative of `elem`'s class, or nothing if `elem` is
    /// absent, repointing every key it visits directly at the
    /// representative (path compression): every parent entry is either
    /// untouched or now aims straight at its key's representative, and
    /// `elem`'s own entry ends at the returned representative. No key's
    /// representative changes.
    ///
    /// Use [`find`](UnionFind::find) for an immutable version.
    pub fn find_shorten(&mut self, elem: &usize) -> (r: Option<usize>)
        requires
            old(self).wf(),
        ensures
            final(self).wf(),
            final(self).extra == old(self).extra,
            final(self).parent@.dom() == old(self).parent@.dom(),
            roots_of(final(self).parent@) == roots_of(old(self).parent@),
            forall|k: usize|
                old(self).parent@.dom().contains(k) ==> #[trigger] repr(final(self).parent@, k)
                    == repr(old(self).parent@, k),
            forall|k: usize|
                old(self).parent@.dom().contains(k) ==> (#[trigger] final(self).parent@[k]) == old(
                    self,
                ).parent@[k] || final(self).parent@[k] == repr(old(self).parent@, k),
            old(self).parent@.dom().contains(*elem) ==> final(self).parent@[*elem] == repr(
                old(self).parent@,
                *elem,
            ),
            r == spec_find(old(self).parent@, *elem),
            !old(self).parent@.dom().contains(*elem) ==> *final(self) == *old(self),
    {
        if !self.parent.contains_key(elem) {
            return None;
        }
        proof {
            assert(rooted(self.parent@, *elem));
        }
        let ghost fuel: nat = choose|n: nat| is_root(self.parent@, chase(self.parent@, *elem, n));
        Some(self.find_shorten_rec(*elem, Ghost(fuel)))
    }

    fn union_helper<U: Union>(&mut self, parent1: usize, parent2: usize, union: U) -> (r: Result<
        UnionStatus,
        U::Failure,
    >)
        requires
            old(self).wf(),
            is_root(old(self).parent@, parent1),
            is_root(old(self).parent@, parent2),
        ensures
            final(self).wf(),
            final(self).extra == old(self).extra,
            final(self).parent@.dom() == old(self).parent@.dom(),
            parent1 == parent2 ==> r == Ok::<UnionStatus, U::Failure>(
                UnionStatus::AlreadyEquivalent,
            ) && *final(self) == *old(self),
            parent1 != parent2 ==> {
                &&& (r is Ok <==> union.union_ok(parent1, parent2))
                &&& (r is Err ==> *final(self) == *old(self) && r == Err::<
                    UnionStatus,
                    U::Failure,
                >(union.refusal(parent1, parent2)))
                &&& (r is Ok ==> final(self).parent@ == old(self).parent@.insert(
                    parent1,
                    union.chosen(parent1, parent2),
                ).insert(parent2, union.chosen(parent1, parent2)))
                &&& (r is Ok ==> r == Ok::<UnionStatus, U::Failure>(UnionStatus::PerformedUnion)
                    && forall|k: usize|
                    old(self).parent@.dom().contains(k) ==> #[trigger] repr(final(self).parent@, k)
                        == merged_repr(
                        old(self).parent@,
                        parent1,
                        parent2,
                        union.chosen(parent1, parent2),
                        k,
                    ))
            },
    {
        let ghost m0 = self.parent@;
        if parent1 == parent2 {
            return Ok(UnionStatus::AlreadyEquivalent);
        }
        let res = match union.union(parent1, parent2) {
            Ok(res) => res,
            Err(e) => {
                return Err(e);
            },
        };
        self.parent.insert(parent1, res);
        proof {
            if res == parent1 {
                assert(self.parent@ =~= m0);
            } else {
                lemma_link(m0, parent1, parent2);
            }
        }
        let ghost m1 = self.parent@;
        self.parent.insert(parent2, res);
        proof {
            if res == parent1 {
                lemma_link(m0, parent2, parent1);
                assert(self.parent@ == m0.insert(parent2, parent1));
            } else {
                assert(is_root(m1, parent2));
                assert(self.parent@ =~= m1);
            }
            let m2 = self.parent@;
            let w = union.chosen(parent1, parent2);
            let loser: usize = if res == parent1 {
                parent2
            } else {
                parent1
            };
            assert forall|k: usize| m0.dom().contains(k) implies #[trigger] repr(m2, k)
                == merged_repr(m0, parent1, parent2, w, k) by {
                lemma_repr_of_root(m0, parent1);
                lemma_repr_of_root(m0, parent2);
            }
            if E::tracks_values() {
                assert forall|rt: usize| is_root(m2, rt) implies #[trigger] self.extra.val_of(rt)
                    + num_roots(m2) <= m2.dom().len() by {
                    assert(roots_of(m2).contains(rt));
                    assert(roots_of(m0).contains(rt));
                    assert(is_root(m0, rt));
                }
            }
        }
        Ok(UnionStatus::PerformedUnion)
    }

    /// Unions the classes of two elements, letting the given strategy pick
    /// the surviving representative; on success both old representatives
    /// point at the strategy's pick. Fails with `Elem1NotFound` or
    /// `Elem2NotFound` exactly when the respective element is absent, and
    /// with `NotUnionable`, carrying the strategy's own error, exactly when
    /// the two classes are distinct and the strategy refuses the merge; no
    /// failure changes any key's representative.
    pub fn union_by<U: Union>(&mut self, elem1: &usize, elem2: &usize, union: U) -> (r: Result<
        UnionStatus,
        UnionError<U::Failure>,
    >)
        requires
            old(self).wf(),
        ensures
            final(self).wf(),
            final(self).extra == old(self).extra,
            final(self).parent@.dom() == old(self).parent@.dom(),
            !old(self).parent@.dom().contains(*elem1) ==> r == Err::<
                UnionStatus,
                UnionError<U::Failure>,
            >(UnionError::Elem1NotFound) && *final(self) == *old(self),
            old(self).parent@.dom().contains(*elem1) && !old(self).parent@.dom().contains(*elem2)
                ==> r == Err::<UnionStatus, UnionError<U::Failure>>(UnionError::Elem2NotFound),
            r is Err ==> forall|k: usize|
                old(self).parent@.dom().contains(k) ==> #[trigger] repr(final(self).parent@, k)
                    == repr(old(self).parent@, k),
            old(self).parent@.dom().contains(*elem1) && old(self).parent@.dom().contains(*elem2)
                ==> ({
                let m0 = old(self).parent@;
                let r1 = repr(m0, *elem1);
                let r2 = repr(m0, *elem2);
                &&& (r1 == r2 ==> r == Ok::<UnionStatus, UnionError<U::Failure>>(
                    UnionStatus::AlreadyEquivalent,
                ) && forall|k: usize|
                    m0.dom().contains(k) ==> #[trigger] repr(final(self).parent@, k) == repr(m0, k))
                &&& (r1 != r2 ==> {
                    &&& (r is Ok <==> union.union_ok(r1, r2))
                    &&& (r is Ok ==> r == Ok::<UnionStatus, UnionError<U::Failure>>(
                        UnionStatus::PerformedUnion,
                    ) && final(self).parent@[r1] == union.chosen(r1, r2) && final(self).parent@[r2]
                        == union.chosen(r1, r2) && forall|k: usize|
                        m0.dom().contains(k) ==> #[trigger] repr(final(self).parent@, k)
                            == merged_repr(m0, r1, r2, union.chosen(r1, r2), k))
                    &&& (r is Err ==> r == Err::<UnionStatus, UnionError<U::Failure>>(
                        UnionError::NotUnionable(union.refusal(r1, r2)),
                    ))
                })
            }),
    {
        let ghost m0 = self.parent@;
        let parent1 = match self.find_shorten(elem1) {
            Some(p) => p,
            None => {
                return Err(UnionError::Elem1NotFound);
            },
        };
        let ghost ma = self.parent@;
        proof {
            lemma_repr(m0, *elem1);
            assert(roots_of(ma).contains(parent1));
            assert(is_root(ma, parent1));
        }
        let parent2 = match self.find_shorten(elem2) {
            Some(p) => p,
            None => {
                return Err(UnionError::Elem2NotFound);
            },
        };
        let ghost mb = self.parent@;
        proof {
            lemma_repr(m0, *elem2);
            assert(roots_of(mb).contains(parent2));
            assert(is_root(mb, parent2));
            assert(roots_of(mb).contains(parent1));
            assert(is_root(mb, parent1));
        }
        proof {
            assert(parent1 == repr(m0, *elem1));
            assert(repr(ma, *elem2) == repr(m0, *elem2));
            assert(parent2 == repr(m0, *elem2));
        }
        let r = match self.union_helper(parent1, parent2, union) {
            Ok(s) => Ok(s),
            Err(e) => {
                proof {
                    assert forall|k: usize| m0.dom().contains(k) implies #[trigger] repr(
                        self.parent@,
                        k,
                    ) == repr(m0, k) by {
                        assert(repr(ma, k) == repr(m0, k));
                        assert(repr(mb, k) == repr(ma, k));
                    }
                }
                return Err(UnionError::NotUnionable(e));
            },
        };
        proof {
            if parent1 != parent2 {
                assert forall|k: usize| m0.dom().contains(k) implies #[trigger] repr(
                    self.parent@,
                    k,
                ) == merged_repr(m0, repr(m0, *elem1), repr(m0, *elem2), union.chosen(
                    parent1,
                    parent2,
                ), k) by {
                    assert(repr(ma, k) == repr(m0, k));
                    assert(repr(mb, k) == repr(ma, k));
                    assert(repr(self.parent@, k) == merged_repr(mb, parent1, parent2, union.chosen(
                        parent1,
                        parent2,
                    ), k));
                }
            } else {
                assert forall|k: usize| m0.dom().contains(k) implies #[trigger] repr(
                    self.parent@,
                    k,
                ) == repr(m0, k) by {
                    assert(repr(ma, k) == repr(m0, k));
                    assert(repr(mb, k) == repr(ma, k));
                }
            }
        }
        r
    }
}

impl UnionFind<crate::extra::ByRank> {
    fn union_by_rank_helper(&mut self, parent1: usize, parent2: usize) -> (r: Result<
        UnionStatus,
        UnionByRankError,
    >)
        requires
            old(self).wf(),
            is_root(old(self).parent@, parent1),
            is_root(old(self).parent@, parent2),
        ensures
            final(self).wf(),
            r is Ok,
            final(self).parent@.dom() == old(self).parent@.dom(),
            parent1 == parent2 ==> r == Ok::<UnionStatus, UnionByRankError>(
                UnionStatus::AlreadyEquivalent,
            ) && *final(self) == *old(self),
            parent1 != parent2 ==> r == Ok::<UnionStatus, UnionByRankError>(
                UnionStatus::PerformedUnion,
            ) && ({
                let m0 = old(self).parent@;
                let ranks0 = old(self).extra.ranks();
                let w: usize = if ranks0[parent1] > ranks0[parent2] {
                    parent1
                } else {
                    parent2
                };
                &&& final(self).parent@ == m0.insert(
                    (if ranks0[parent1] > ranks0[parent2] {
                        parent2
                    } else {
                        parent1
                    }),
                    w,
                )
                &&& forall|k: usize|
                    m0.dom().contains(k) ==> #[trigger] repr(final(self).parent@, k)
                        == merged_repr(m0, parent1, parent2, w, k)
                &&& (ranks0[parent1] == ranks0[parent2] ==> final(self).extra.ranks()
                    == ranks0.insert(parent2, (ranks0[parent2] + 1) as usize))
                &&& (ranks0[parent1] != ranks0[parent2] ==> final(self).extra.ranks() == ranks0)
            }),
            forall|k: usize|
                old(self).extra.ranks().dom().contains(k) ==> old(self).extra.ranks()[k]
                    <= #[trigger] final(self).extra.ranks()[k],
    {
        let ghost m0 = self.parent@;
        let ghost ranks0 = self.extra.ranks();
        if parent1 == parent2 {
            return Ok(UnionStatus::AlreadyEquivalent);
        }
        let rank1 = match self.extra.rank(&parent1) {
            Some(x) => x,
            None => {
                proof {
                    assert(false);
                }
                return Err(UnionByRankError::Elem1NotFound);
            },
        };
        let rank2 = match self.extra.rank(&parent2) {
            Some(x) => x,
            None => {
                proof {
                    assert(false);
                }
                return Err(UnionByRankError::Elem2NotFound);
            },
        };
        // A hash map cannot hold more entries than a `usize` counts, which
        // (with the rank bound of `wf`) rules out rank overflow below.
        let total = self.parent.len();
        proof {
            lemma_num_roots_le(m0);
            assert(roots_of(m0).contains(parent1));
            assert(roots_of(m0).remove(parent1).contains(parent2));
            vstd::set::axiom_set_remove_len(roots_of(m0), parent1);
            if roots_of(m0).remove(parent1).len() == 0 {
                roots_of(m0).remove(parent1).lemma_len0_is_empty();
            }
            assert(num_roots(m0) >= 2);
        }
        if rank1 < rank2 {
            self.parent.insert(parent1, parent2);
            proof {
                lemma_link(m0, parent1, parent2);
                self.lemma_rank_wf_after_link(m0, parent1);
            }
        } else if rank1 > rank2 {
            self.parent.insert(parent2, parent1);
            proof {
                lemma_link(m0, parent2, parent1);
                self.lemma_rank_wf_after_link(m0, parent2);
            }
        } else {
            self.parent.insert(parent1, parent2);
            proof {
                lemma_link(m0, parent1, parent2);
                assert(old(self).extra.val_of(parent2) + num_roots(m0) <= m0.dom().len());
                assert(total == m0.dom().len());
            }
            self.extra.set_rank(parent2, rank2 + 1);
            proof {
                let m2 = self.parent@;
                assert(self.extra.ranks().dom() =~= ranks0.dom());
                assert forall|rt: usize| is_root(m2, rt) implies #[trigger] self.extra.val_of(rt)
                    + num_roots(m2) <= m2.dom().len() by {
                    assert(roots_of(m2).contains(rt));
                    assert(roots_of(m0).contains(rt));
                    assert(is_root(m0, rt));
                    assert(old(self).extra.val_of(rt) + num_roots(m0) <= m0.dom().len());
                    assert(num_roots(m2) == num_roots(m0) - 1);
                    if rt == parent2 {
                        assert(self.extra.val_of(rt) == rank2 + 1);
                    } else {
                        assert(self.extra.val_of(rt) == old(self).extra.val_of(rt));
                    }
                }
            }
        }
        proof {
            let m2 = self.parent@;
            let w: usize = if ranks0[parent1] > ranks0[parent2] {
                parent1
            } else {
                parent2
            };
            lemma_repr_of_root(m0, parent1);
            lemma_repr_of_root(m0, parent2);
            assert forall|k: usize| m0.dom().contains(k) implies #[trigger] repr(m2, k)
                == merged_repr(m0, parent1, parent2, w, k) by {}
        }
        Ok(UnionStatus::PerformedUnion)
    }

    /// Reestablishes the rank bound of `wf` after one root was repointed at
    /// another while the ranks stayed unchanged.
    proof fn lemma_rank_wf_after_link(&self, m0: Map<usize, usize>, loser: usize)
        requires
            wf_map(m0),
            m0.dom().finite(),
            roots_of(self.parent@) == roots_of(m0).remove(loser),
            self.parent@.dom() == m0.dom(),
            forall|r: usize|
                is_root(m0, r) ==> #[trigger] self.extra.val_of(r) + num_roots(m0)
                    <= m0.dom().len(),
            num_roots(self.parent@) == num_roots(m0) - 1,
            num_roots(m0) >= 1,
        ensures
            forall|r: usize|
                is_root(self.parent@, r) ==> #[trigger] self.extra.val_of(r) + num_roots(
                    self.parent@,
                ) <= self.parent@.dom().len(),
    {
        let m2 = self.parent@;
        assert forall|rt: usize| is_root(m2, rt) implies #[trigger] self.extra.val_of(rt)
            + num_roots(m2) <= m2.dom().len() by {
            assert(roots_of(m2).contains(rt));
            assert(roots_of(m0).contains(rt));
            assert(is_root(m0, rt));
        }
    }

    /// Unions the classes of two elements, repointing the lower-rank
    /// representative at the higher-rank one; on a rank tie the second
    /// element's representative survives and its rank grows by exactly one.
    /// Fails with `Elem1NotFound` or `Elem2NotFound` exactly when the
    /// respective element is absent; no failure changes any key's
    /// representative or rank, and no rank ever decreases.
    pub fn union_by_rank(&mut self, elem1: &usize, elem2: &usize) -> (r: Result<
        UnionStatus,
        UnionByRankError,
    >)
        requires
            old(self).wf(),
        ensures
            final(self).wf(),
            final(self).parent@.dom() == old(self).parent@.dom(),
            !old(self).parent@.dom().contains(*elem1) ==> r == Err::<
                UnionStatus,
                UnionByRankError,
            >(UnionByRankError::Elem1NotFound) && *final(self) == *old(self),
            old(self).parent@.dom().contains(*elem1) && !old(self).parent@.dom().contains(*elem2)
                ==> r == Err::<UnionStatus, UnionByRankError>(UnionByRankError::Elem2NotFound),
            r is Err ==> final(self).extra.ranks() == old(self).extra.ranks() && forall|k: usize|
                old(self).parent@.dom().contains(k) ==> #[trigger] repr(final(self).parent@, k)
                    == repr(old(self).parent@, k),
            old(self).parent@.dom().contains(*elem1) && old(self).parent@.dom().contains(*elem2)
                ==> ({
                let m0 = old(self).parent@;
                let ranks0 = old(self).extra.ranks();
                let r1 = repr(m0, *elem1);
                let r2 = repr(m0, *elem2);
                let w: usize = if ranks0[r1] > ranks0[r2] {
                    r1
                } else {
                    r2
                };
                &&& r is Ok
                &&& (r1 == r2 <==> r == Ok::<UnionStatus, UnionByRankError>(
                    UnionStatus::AlreadyEquivalent,
                ))
                &&& (r1 == r2 ==> final(self).extra.ranks() == ranks0 && forall|k: usize|
                    m0.dom().contains(k) ==> #[trigger] repr(final(self).parent@, k) == repr(m0, k))
                &&& (r1 != r2 ==> {
                    &&& r == Ok::<UnionStatus, UnionByRankError>(UnionStatus::PerformedUnion)
                    &&& forall|k: usize|
                        m0.dom().contains(k) ==> #[trigger] repr(final(self).parent@, k)
                            == merged_repr(m0, r1, r2, w, k)
                    &&& (ranks0[r1] == ranks0[r2] ==> final(self).extra.ranks() == ranks0.insert(
                        r2,
                        (ranks0[r2] + 1) as usize,
                    ))
                    &&& (ranks0[r1] != ranks0[r2] ==> final(self).extra.ranks() == ranks0)
                })
            }),
            forall|k: usize|
                old(self).extra.ranks().dom().contains(k) ==> old(self).extra.ranks()[k]
                    <= #[trigger] final(self).extra.ranks()[k],
    {
        let ghost m0 = self.parent@;
        let parent1 = match self.find_shorten(elem1) {
            Some(p) => p,
            None => {
                return Err(UnionByRankError::Elem1NotFound);
            },
        };
        let ghost ma = self.parent@;
        proof {
            lemma_repr(m0, *elem1);
            assert(roots_of(ma).contains(parent1));
            assert(is_root(ma, parent1));
        }
        let parent2 = match self.find_shorten(elem2) {
            Some(p) => p,
            None => {
                proof {
                    assert forall|k: usize| m0.dom().contains(k) implies #[trigger] repr(
                        self.parent@,
                        k,
                    ) == repr(m0, k) by {}
                }
                return Err(UnionByRankError::Elem2NotFound);
            },
        };
        let ghost mb = self.parent@;
        proof {
            lemma_repr(m0, *elem2);
            assert(roots_of(mb).contains(parent2));
            assert(is_root(mb, parent2));
            assert(roots_of(mb).contains(parent1));
            assert(is_root(mb, parent1));
            assert(parent1 == repr(m0, *elem1));
            assert(repr(ma, *elem2) == repr(m0, *elem2));
            assert(parent2 == repr(m0, *elem2));
        }
        let r = self.union_by_rank_helper(parent1, parent2);
        proof {
            if parent1 != parent2 {
                let ranks0 = self.extra.ranks();
                let w: usize = if ranks0[parent1] > ranks0[parent2] {
                    parent1
                } else {
                    parent2
                };
                assert forall|k: usize| m0.dom().contains(k) implies #[trigger] repr(
                    self.parent@,
                    k,
                ) == merged_repr(m0, parent1, parent2, w, k) by {
                    assert(repr(ma, k) == repr(m0, k));
                    assert(repr(mb, k) == repr(ma, k));
                }
            } else {
                assert forall|k: usize| m0.dom().contains(k) implies #[trigger] repr(
                    self.parent@,
                    k,
                ) == repr(m0, k) by {
                    assert(repr(ma, k) == repr(m0, k));
                    assert(repr(mb, k) == repr(ma, k));
                }
            }
        }
        r
    }
}

impl<E: GrowableExtra> UnionFind<E> {
    /// Adds a new key with the given extra value, as a class of its own.
    /// Fails exactly when the key is already present, changing nothing;
    /// otherwise no existing key's representative changes. Under a
    /// value-tracking strategy the structure's invariant is kept whenever
    /// the supplied value respects the rank bound (a value of zero always
    /// does; see [`add`](UnionFind::add)).
    pub fn add_with_extra(&mut self, elem: usize, extra: usize) -> (r: Result<(), AddErrorSimple>)
        requires
            old(self).wf(),
        ensures
            r is Ok <==> !old(self).parent@.dom().contains(elem),
            r is Err ==> *final(self) == *old(self) && r == Err::<(), AddErrorSimple>(
                AddError::Parent(DuplicateElement),
            ) && final(self).wf(),
            r is Ok ==> {
                &&& final(self).parent@ == old(self).parent@.insert(elem, elem)
                &&& final(self).extra.keys() == old(self).extra.keys().insert(elem)
                &&& repr(final(self).parent@, elem) == elem
                &&& forall|k: usize|
                    old(self).parent@.dom().contains(k) ==> #[trigger] repr(final(self).parent@, k)
                        == repr(old(self).parent@, k)
                &&& (E::tracks_values() ==> final(self).extra.val_of(elem) == extra && forall|
                    j: usize,
                |
                    j != elem ==> final(self).extra.val_of(j) == old(self).extra.val_of(j))
            },
            r is Ok && (E::tracks_values() ==> extra + num_roots(old(self).parent@) <= old(
                self,
            ).parent@.dom().len()) ==> final(self).wf(),
    {
        if self.parent.contains_key(&elem) {
            return Err(AddError::Parent(DuplicateElement));
        }
        let ghost m0 = self.parent@;
        proof {
            self.extra.add_ok_when_absent(elem);
        }
        self.parent.insert(elem, elem);
        proof {
            lemma_grow(m0, elem);
        }
        match self.extra.add(elem, extra) {
            Ok(()) => {
                proof {
                    let m2 = self.parent@;
                    if E::tracks_values() {
                        assert(self.extra.keys() =~= m2.dom());
                        if extra + num_roots(m0) <= m0.dom().len() {
                            assert forall|rt: usize| is_root(m2, rt) implies #[trigger] self
                                .extra
                                .val_of(rt) + num_roots(m2) <= m2.dom().len() by {
                                assert(roots_of(m2).contains(rt));
                                if rt != elem {
                                    assert(roots_of(m0).contains(rt));
                                    assert(is_root(m0, rt));
                                }
                            }
                        }
                    }
                }
                Ok(())
            },
            Err(_) => {
                proof {
                    assert(false);
                }
                Err(AddError::Extra(DuplicateElement))
            },
        }
    }

    /// Adds a new key, as a class of its own, with the default extra value
    /// (rank zero under the by-rank strategy). Fails exactly when the key is
    /// already present, changing nothing; otherwise no existing key's
    /// representative changes.
    pub fn add(&mut self, elem: usize) -> (r: Result<(), AddErrorSimple>)
        requires
            old(self).wf(),
        ensures
            final(self).wf(),
            r is Ok <==> !old(self).parent@.dom().contains(elem),
            r is Err ==> *final(self) == *old(self) && r == Err::<(), AddErrorSimple>(
                AddError::Parent(DuplicateElement),
            ),
            r is Ok ==> {
                &&& final(self).parent@ == old(self).parent@.insert(elem, elem)
                &&& final(self).extra.keys() == old(self).extra.keys().insert(elem)
                &&& repr(final(self).parent@, elem) == elem
                &&& forall|k: usize|
                    old(self).parent@.dom().contains(k) ==> #[trigger] repr(final(self).parent@, k)
                        == repr(old(self).parent@, k)
                &&& (E::tracks_values() ==> final(self).extra.val_of(elem) == 0 && forall|j: usize|
                    j != elem ==> final(self).extra.val_of(j) == old(self).extra.val_of(j))
            },
    {
        proof {
            lemma_num_roots_le(old(self).parent@);
        }
        self.add_with_extra(elem, 0)
    }

    /// Returns the representative of `elem`'s class; if `elem` is absent, it
    /// is first added as a class of its own. Never fails, and never changes
    /// an existing key's representative.
    pub fn find_or_add(&mut self, elem: &usize) -> (r: Result<usize, AddErrorSimple>)
        requires
            old(self).wf(),
        ensures
            final(self).wf(),
            r is Ok,
            old(self).parent@.dom().contains(*elem) ==> r == Ok::<usize, AddErrorSimple>(
                repr(old(self).parent@, *elem),
            ) && *final(self) == *old(self),
            !old(self).parent@.dom().contains(*elem) ==> {
                &&& r == Ok::<usize, AddErrorSimple>(*elem)
                &&& final(self).parent@ == old(self).parent@.insert(*elem, *elem)
                &&& final(self).extra.keys() == old(self).extra.keys().insert(*elem)
                &&& forall|k: usize|
                    old(self).parent@.dom().contains(k) ==> #[trigger] repr(final(self).parent@, k)
                        == repr(old(self).parent@, k)
                &&& (E::tracks_values() ==> final(self).extra.val_of(*elem) == 0 && forall|
                    j: usize,
                |
                    j != *elem ==> final(self).extra.val_of(j) == old(self).extra.val_of(j))
            },
    {
        match self.find(elem) {
            Some(i) => Ok(i),
            None => {
                match self.add(*elem) {
                    Ok(()) => Ok(*elem),
                    Err(e) => {
                        proof {
                            assert(false);
                        }
                        Err(e)
                    },
                }
            },
        }
    }
}

} // verus!
