use unionfind::extra::{ByRank, DuplicateElement};
use unionfind::generic::{
    AddError, NeverUnion, NewUnionFindError, PickFirst, UnionByRankError, UnionError, UnionFind,
    UnionStatus,
};
use unionfind::HashUnionFindByRank;

fn range_vec(lo: usize, hi: usize) -> Vec<usize> {
    let mut v: Vec<usize> = Vec::new();
    for i in lo..hi {
        v.push(i);
    }
    v
}

#[test]
fn grow() {
    let mut uf = HashUnionFindByRank::new(&vec![0, 1, 2]).unwrap();
    uf.union_by_rank(&0, &2).unwrap();

    assert_eq!(uf.find(&0), uf.find(&2));
    assert_eq!(uf.find(&1), Some(1));

    uf.add(3).unwrap();

    assert_eq!(uf.find(&0), uf.find(&2));
    assert_eq!(uf.find(&1), Some(1));

    uf.union_by_rank(&3, &1).unwrap();

    assert_eq!(uf.find(&0), uf.find(&2));
    assert_eq!(uf.find(&1), uf.find(&3));
}

#[test]
fn grow_non_consecutive() {
    let mut uf = HashUnionFindByRank::new(&vec![8, 1, 2]).unwrap();
    uf.union_by_rank(&8, &2).unwrap();

    assert_eq!(uf.find(&8), uf.find(&2));
    assert_eq!(uf.find(&1), Some(1));

    uf.add(9).unwrap();

    assert_eq!(uf.find(&8), uf.find(&2));
    assert_eq!(uf.find(&1), Some(1));

    uf.union_by_rank(&9, &1).unwrap();

    assert_eq!(uf.find(&8), uf.find(&2));
    assert_eq!(uf.find(&1), uf.find(&9));
}

#[test]
fn union_by_rank() {
    let mut uf = HashUnionFindByRank::new(&range_vec(0, 20)).unwrap();
    uf.union_by_rank(&0, &1).unwrap();
    uf.union_by_rank(&2, &0).unwrap();
    uf.union_by_rank(&0, &3).unwrap();

    assert_eq!(uf.find(&1), uf.find(&3));
    assert_ne!(uf.find(&2), uf.find(&8));
    assert_ne!(uf.find(&6), uf.find(&8));

    uf.union_by_rank(&5, &6).unwrap();
    uf.union_by_rank(&7, &8).unwrap();
    uf.union_by_rank(&5, &7).unwrap();

    assert_eq!(uf.find(&8), uf.find(&6));

    uf.union_by_rank(&10, &11).unwrap();
    uf.union_by_rank(&12, &13).unwrap();
    uf.union_by_rank(&11, &13).unwrap();

    assert_eq!(uf.find(&10), uf.find(&12));

    uf.union_by_rank(&14, &15).unwrap();
    uf.union_by_rank(&16, &17).unwrap();
    uf.union_by_rank(&14, &17).unwrap();

    assert_eq!(uf.find(&15), uf.find(&16));
}

#[test]
fn new_rejects_duplicates() {
    let r = HashUnionFindByRank::new(&vec![1, 2, 1]);
    assert!(matches!(
        r,
        Err(NewUnionFindError::Parent(DuplicateElement))
    ));
    let r2: Result<UnionFind<()>, _> = UnionFind::new(&vec![7, 7]);
    assert!(matches!(
        r2,
        Err(NewUnionFindError::Parent(DuplicateElement))
    ));
}

#[test]
fn find_returns_some_for_every_added_key() {
    let mut uf = HashUnionFindByRank::new(&vec![3, 5, 9]).unwrap();
    for k in [3usize, 5, 9] {
        assert_eq!(uf.find(&k), Some(k));
    }
    assert_eq!(uf.find(&4), None);
    uf.add(4).unwrap();
    assert_eq!(uf.find(&4), Some(4));
}

#[test]
fn find_agrees_with_find_shorten() {
    let mut uf = HashUnionFindByRank::new(&range_vec(0, 8)).unwrap();
    uf.union_by_rank(&0, &1).unwrap();
    uf.union_by_rank(&2, &3).unwrap();
    uf.union_by_rank(&0, &2).unwrap();
    for k in 0..8usize {
        let plain = uf.find(&k);
        let shortened = uf.find_shorten(&k);
        assert_eq!(plain, shortened);
        // and again after the compression
        assert_eq!(uf.find(&k), shortened);
    }
    assert_eq!(uf.find_shorten(&100), None);
}

#[test]
fn union_outcome_is_commutative() {
    let mut left = HashUnionFindByRank::new(&range_vec(0, 6)).unwrap();
    let mut right = HashUnionFindByRank::new(&range_vec(0, 6)).unwrap();
    left.union_by_rank(&1, &4).unwrap();
    right.union_by_rank(&4, &1).unwrap();
    assert_eq!(left.find(&1), left.find(&4));
    assert_eq!(right.find(&1), right.find(&4));
    for j in 0..6usize {
        for k in 0..6usize {
            assert_eq!(
                left.find(&j) == left.find(&k),
                right.find(&j) == right.find(&k)
            );
        }
    }
}

#[test]
fn union_on_equivalent_keys_is_a_noop() {
    let mut uf = HashUnionFindByRank::new(&range_vec(0, 5)).unwrap();
    uf.union_by_rank(&0, &1).unwrap();
    let before: Vec<Option<usize>> = (0..5usize).map(|k| uf.find(&k)).collect();
    let st = uf.union_by_rank(&0, &1).unwrap();
    assert_eq!(st, UnionStatus::AlreadyEquivalent);
    let after: Vec<Option<usize>> = (0..5usize).map(|k| uf.find(&k)).collect();
    assert_eq!(before, after);
}

#[test]
fn ranks_never_decrease() {
    let mut uf = HashUnionFindByRank::new(&range_vec(0, 8)).unwrap();
    let mut prev: Vec<usize> = (0..8usize).map(|k| uf.extra.rank(&k).unwrap()).collect();
    let steps = [(0usize, 1usize), (2, 3), (0, 2), (4, 5), (6, 7), (4, 6), (0, 4)];
    for (a, b) in steps {
        uf.union_by_rank(&a, &b).unwrap();
        let now: Vec<usize> = (0..8usize).map(|k| uf.extra.rank(&k).unwrap()).collect();
        for k in 0..8usize {
            assert!(now[k] >= prev[k]);
        }
        prev = now;
    }
}

#[test]
fn tie_breaking_bumps_the_survivor_rank_by_one() {
    let mut uf = HashUnionFindByRank::new(&vec![0, 1, 2]).unwrap();
    assert_eq!(uf.extra.rank(&2), Some(0));
    let st = uf.union_by_rank(&0, &2).unwrap();
    assert_eq!(st, UnionStatus::PerformedUnion);
    // equal ranks: the second element's representative survives at rank one
    assert_eq!(uf.find(&0), Some(2));
    assert_eq!(uf.extra.rank(&2), Some(1));
    assert_eq!(uf.extra.rank(&0), Some(0));
}

#[test]
fn growth_preserves_prior_classes() {
    let mut uf = HashUnionFindByRank::new(&range_vec(0, 6)).unwrap();
    uf.union_by_rank(&0, &1).unwrap();
    uf.union_by_rank(&2, &3).unwrap();
    let before: Vec<Option<usize>> = (0..6usize).map(|k| uf.find(&k)).collect();
    uf.add(42).unwrap();
    let after: Vec<Option<usize>> = (0..6usize).map(|k| uf.find(&k)).collect();
    assert_eq!(before, after);
    assert_eq!(uf.find(&42), Some(42));
}

#[test]
fn union_on_absent_key_fails_without_side_effects() {
    let mut uf = HashUnionFindByRank::new(&range_vec(0, 4)).unwrap();
    uf.union_by_rank(&0, &1).unwrap();
    let before: Vec<Option<usize>> = (0..4usize).map(|k| uf.find(&k)).collect();
    assert!(matches!(
        uf.union_by_rank(&9, &1),
        Err(UnionByRankError::Elem1NotFound)
    ));
    assert!(matches!(
        uf.union_by_rank(&1, &9),
        Err(UnionByRankError::Elem2NotFound)
    ));
    let after: Vec<Option<usize>> = (0..4usize).map(|k| uf.find(&k)).collect();
    assert_eq!(before, after);
}

#[test]
fn add_rejects_existing_keys() {
    let mut uf = HashUnionFindByRank::new(&vec![1, 2]).unwrap();
    assert!(matches!(
        uf.add(1),
        Err(AddError::Parent(DuplicateElement))
    ));
    assert_eq!(uf.find(&1), Some(1));
}

#[test]
fn add_with_extra_stores_the_given_rank() {
    let mut uf = HashUnionFindByRank::new(&vec![1]).unwrap();
    uf.add_with_extra(2, 0).unwrap();
    assert_eq!(uf.extra.rank(&2), Some(0));
    assert_eq!(uf.find(&2), Some(2));
    assert!(matches!(
        uf.add_with_extra(2, 0),
        Err(AddError::Parent(DuplicateElement))
    ));
}

#[test]
fn find_or_add_finds_or_grows() {
    let mut uf = HashUnionFindByRank::new(&vec![0, 1]).unwrap();
    uf.union_by_rank(&0, &1).unwrap();
    assert_eq!(uf.find_or_add(&0).unwrap(), uf.find(&0).unwrap());
    assert_eq!(uf.find_or_add(&7).unwrap(), 7);
    assert_eq!(uf.find(&7), Some(7));
}

#[test]
fn union_by_strategy_picks_the_first_representative() {
    let mut uf: UnionFind<()> = UnionFind::new(&vec![1, 2, 3]).unwrap();
    let st = uf.union_by(&2, &3, PickFirst).unwrap();
    assert_eq!(st, UnionStatus::PerformedUnion);
    assert_eq!(uf.find(&2), Some(2));
    assert_eq!(uf.find(&3), Some(2));
    let st2 = uf.union_by(&3, &2, PickFirst).unwrap();
    assert_eq!(st2, UnionStatus::AlreadyEquivalent);
    assert!(matches!(
        uf.union_by(&9, &1, PickFirst),
        Err(UnionError::Elem1NotFound)
    ));
    assert!(matches!(
        uf.union_by(&1, &9, PickFirst),
        Err(UnionError::Elem2NotFound)
    ));
}

#[test]
fn refusing_strategy_reports_not_unionable() {
    let mut uf: UnionFind<()> = UnionFind::new(&vec![1, 2]).unwrap();
    assert!(matches!(
        uf.union_by(&1, &2, NeverUnion),
        Err(UnionError::NotUnionable(()))
    ));
    assert_eq!(uf.find(&1), Some(1));
    assert_eq!(uf.find(&2), Some(2));
    // already-equivalent keys short-circuit before the strategy is asked
    let st = uf.union_by(&1, &1, NeverUnion).unwrap();
    assert_eq!(st, UnionStatus::AlreadyEquivalent);
}

#[test]
fn by_rank_mapping_accessors() {
    let mut br = ByRank::new(&vec![4, 5]).unwrap();
    assert_eq!(br.rank(&4), Some(0));
    assert_eq!(br.rank(&6), None);
    br.set_rank(4, 7);
    assert_eq!(br.rank(&4), Some(7));
    assert!(matches!(ByRank::new(&vec![4, 4]), Err(DuplicateElement)));
}
