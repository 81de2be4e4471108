//! Per-key extra-information strategies for the union-find.
//!
//! A union-find owns one *extra-info* value next to its parent mapping. Two
//! strategies ship: `()` stores nothing (every operation on it trivially
//! succeeds), and [`ByRank`] stores a rank per key, which the union-by-rank
//! heuristic uses to bound tree height.

use std::collections::HashMap;
use vstd::prelude::*;

verus! {

broadcast use vstd::std_specs::hash::group_hash_axioms;

/// Returned when a key is inserted into a mapping that already holds it.
#[derive(Clone, Copy, Debug, PartialEq, Eq, Structural)]
pub struct DuplicateElement;

/// Extra information attached to every key of a union-find.
///
/// `keys` is the set of keys the strategy holds information for; a strategy
/// that stores nothing reports every key. When `tracks_values` holds, the
/// strategy really stores one `usize` per key, `val_of` is that value, and
/// the contracts below pin it down exactly; otherwise `val_of` is meaningless.
pub trait Extra: Sized {
    /// The keys this extra-info holds information for.
    spec fn keys(&self) -> Set<usize>;

    /// Whether the strategy stores a real value per key.
    spec fn tracks_values() -> bool;

    /// The value stored for `k` (meaningful only when `tracks_values()`).
    spec fn val_of(&self, k: usize) -> usize;

    /// When building the initial store from `elems` succeeds.
    spec fn build_ok(elems: Seq<usize>) -> bool;

    /// Builds the initial extra-info store for the given element set, every
    /// stored value starting at zero.
    fn default_mapping(elems: &Vec<usize>) -> (r: Result<Self, DuplicateElement>)
        ensures
            r is Ok <==> Self::build_ok(elems@),
            r matches Ok(e) ==> forall|k: usize| elems@.contains(k) ==> e.keys().contains(k),
            Self::tracks_values() ==> (r matches Ok(e) ==> e.keys() == elems@.to_set() && forall|
                k: usize,
            | e.keys().contains(k) ==> e.val_of(k) == 0),
    ;
}

/// An [`Extra`] strategy that accepts keys added after construction.
pub trait GrowableExtra: Extra {
    /// When inserting information for the new key `k` succeeds.
    spec fn add_ok(&self, k: usize) -> bool;

    /// Inserting never fails for a key the strategy holds nothing for, and
    /// never fails at all for a strategy that stores nothing.
    proof fn add_ok_when_absent(&self, k: usize)
        ensures
            !Self::tracks_values() ==> self.add_ok(k),
            !self.keys().contains(k) ==> self.add_ok(k),
    ;

    /// Inserts information for a newly added key; fails exactly when
    /// [`add_ok`](GrowableExtra::add_ok) does not hold, leaving the store
    /// unchanged.
    fn add(&mut self, k: usize, v: usize) -> (r: Result<(), DuplicateElement>)
        ensures
            r is Ok <==> old(self).add_ok(k),
            r is Ok ==> final(self).keys() == old(self).keys().insert(k),
            r is Err ==> *final(self) == *old(self),
            Self::tracks_values() && r is Ok ==> final(self).val_of(k) == v && forall|j: usize|
                j != k ==> final(self).val_of(j) == old(self).val_of(j),
    ;
}

impl Extra for () {
    open spec fn keys(&self) -> Set<usize> {
        Set::full()
    }

    open spec fn tracks_values() -> bool {
        false
    }

    open spec fn val_of(&self, k: usize) -> usize {
        0
    }

    open spec fn build_ok(elems: Seq<usize>) -> bool {
        true
    }

    fn default_mapping(elems: &Vec<usize>) -> (r: Result<Self, DuplicateElement>) {
        Ok(())
    }
}

impl GrowableExtra for () {
    open spec fn add_ok(&self, k: usize) -> bool {
        true
    }

    proof fn add_ok_when_absent(&self, k: usize) {
    }

    fn add(&mut self, k: usize, v: usize) -> (r: Result<(), DuplicateElement>) {
        proof {
            assert(Set::<usize>::full().insert(k) =~= Set::<usize>::full());
        }
        Ok(())
    }
}

/// The by-rank strategy: a rank per key, starting at zero.
#[derive(Debug, Clone)]
pub struct ByRank {
    mapping: HashMap<usize, usize>,
}

impl ByRank {
    /// The stored rank mapping.
    pub closed spec fn ranks(&self) -> Map<usize, usize> {
        self.mapping@
    }

    /// Builds a rank mapping where every given key has rank zero. Fails
    /// exactly when the input holds a duplicate key.
    pub fn new(elems: &Vec<usize>) -> (r: Result<Self, DuplicateElement>)
        ensures
            r is Ok <==> elems@.no_duplicates(),
            r matches Ok(b) ==> b.ranks().dom() == elems@.to_set() && forall|k: usize|
                b.ranks().dom().contains(k) ==> b.ranks()[k] == 0,
    {
        let mut mapping: HashMap<usize, usize> = HashMap::new();
        let mut i: usize = 0;
        while i < elems.len()
            invariant
                i <= elems.len(),
                forall|k: usize| #[trigger]
                    mapping@.dom().contains(k) <==> exists|j: int|
                        0 <= j < i && elems@[j] == k,
                forall|k: usize| mapping@.dom().contains(k) ==> mapping@[k] == 0,
                forall|j1: int, j2: int|
                    0 <= j1 < j2 < i ==> #[trigger] elems@[j1] != #[trigger] elems@[j2],
            decreases elems.len() - i,
        {
            let e = elems[i];
            if mapping.contains_key(&e) {
                proof {
                    let j = choose|j: int| 0 <= j < i && elems@[j] == e;
                    assert(elems@[j] == elems@[i as int]);
                }
                return Err(DuplicateElement);
            }
            mapping.insert(e, 0);
            i = i + 1;
        }
        proof {
            assert(mapping@.dom() =~= elems@.to_set());
        }
        Ok(ByRank { mapping })
    }

    /// The rank stored for `elem`, if any. Read-only.
    pub fn rank(&self, elem: &usize) -> (r: Option<usize>)
        ensures
            r == if self.ranks().dom().contains(*elem) {
                Some(self.ranks()[*elem])
            } else {
                None::<usize>
            },
    {
        match self.mapping.get(elem) {
            Some(v) => Some(*v),
            None => None,
        }
    }

    /// Overwrites the rank of a key that is already present.
    pub fn set_rank(&mut self, elem: usize, rank: usize)
        requires
            old(self).ranks().dom().contains(elem),
        ensures
            final(self).ranks() == old(self).ranks().insert(elem, rank),
    {
        self.mapping.insert(elem, rank);
    }
}

impl Extra for ByRank {
    open spec fn keys(&self) -> Set<usize> {
        self.ranks().dom()
    }

    open spec fn tracks_values() -> bool {
        true
    }

    open spec fn val_of(&self, k: usize) -> usize {
        self.ranks()[k]
    }

    open spec fn build_ok(elems: Seq<usize>) -> bool {
        elems.no_duplicates()
    }

    fn default_mapping(elems: &Vec<usize>) -> (r: Result<Self, DuplicateElement>) {
        ByRank::new(elems)
    }
}

impl GrowableExtra for ByRank {
    open spec fn add_ok(&self, k: usize) -> bool {
        !self.ranks().dom().contains(k)
    }

    proof fn add_ok_when_absent(&self, k: usize) {
    }

    fn add(&mut self, k: usize, v: usize) -> (r: Result<(), DuplicateElement>) {
        if self.mapping.contains_key(&k) {
            Err(DuplicateElement)
        } else {
            self.mapping.insert(k, v);
            proof {
                assert(self.ranks().dom() =~= old(self).ranks().dom().insert(k));
            }
            Ok(())
        }
    }
}

} // verus!
