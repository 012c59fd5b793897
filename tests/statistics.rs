use gtree_experiments::klist::{NonemptyReverseKList, physical_height};
use std::rc::Rc;

use gtree_experiments::{ControlSet, GTree, GTreeNode, NonemptySet, gtree_stats, insert};

type K3 = NonemptyReverseKList<3>;

fn build(pairs: &[(u64, u8)]) -> GTree<K3> {
    let mut t = GTree::Empty;
    for (item, rank) in pairs {
        t = insert(&t, *item, *rank);
    }
    t
}

#[test]
fn stats_of_empty_tree() {
    let (s, ranks) = gtree_stats(&GTree::<K3>::Empty);
    assert_eq!(s.gnode_height, 0);
    assert_eq!(s.gnode_count, 0);
    assert_eq!(s.item_count, 0);
    assert_eq!(s.item_slot_count, 0);
    assert_eq!(s.rank, -1);
    assert!(s.is_heap);
    assert!(s.is_search_tree);
    assert_eq!(s.least_item, None);
    assert_eq!(s.greatest_item, None);
    assert!(ranks.is_empty());
}

#[test]
fn stats_of_three_items() {
    // 10 (rank 2) is the root; 5 (rank 1) its left child; 20 (rank 0) its right child.
    let t = build(&[(10, 2), (20, 0), (5, 1)]);
    let (s, ranks) = gtree_stats(&t);
    assert_eq!(s.gnode_height, 2);
    assert_eq!(s.gnode_count, 3);
    assert_eq!(s.item_count, 3);
    assert_eq!(s.item_slot_count, 9);
    assert_eq!(s.rank, 2);
    assert!(s.is_heap);
    assert!(s.is_search_tree);
    assert_eq!(s.least_item, Some(5));
    assert_eq!(s.greatest_item, Some(20));
    assert_eq!(ranks.get(&2), Some(&1));
    assert_eq!(ranks.get(&1), Some(&1));
    assert_eq!(ranks.get(&0), Some(&1));
    assert_eq!(ranks.len(), 3);
}

#[test]
fn heap_and_search_order_hold_after_updates() {
    let mut t = GTree::<K3>::Empty;
    let mut s = 11u64;
    for step in 0..200u64 {
        s = s.wrapping_mul(6364136223846793005).wrapping_add(1442695040888963407);
        let item = (s >> 33) % 100;
        let rank = ((s >> 20) % 5) as u8;
        t = if step % 4 == 3 {
            gtree_experiments::delete(&t, &item)
        } else {
            insert(&t, item, rank)
        };
        let (st, _) = gtree_stats(&t);
        assert!(st.is_heap);
        assert!(st.is_search_tree);
    }
}

#[test]
fn rank_distribution_counts_items() {
    let t = build(&[(1, 0), (2, 0), (3, 1), (4, 0), (5, 1), (6, 3)]);
    let (s, ranks) = gtree_stats(&t);
    assert_eq!(s.item_count, 6);
    assert_eq!(ranks.get(&0), Some(&3));
    assert_eq!(ranks.get(&1), Some(&2));
    assert_eq!(ranks.get(&3), Some(&1));
    assert_eq!(ranks.get(&2), None);
}

#[test]
fn physical_height_counts_buckets() {
    assert_eq!(physical_height(&GTree::<K3>::Empty), 0);
    // A single node of five items: the right subtree hangs after the fifth pair,
    // which takes ceil(4 / 3) = 2 bucket steps.
    let one = build(&[(1, 0), (2, 0), (3, 0), (4, 0), (5, 0)]);
    assert_eq!(physical_height(&one), 2);
    let t = build(&[(10, 2), (20, 0), (5, 1)]);
    assert_eq!(physical_height(&t), 0);
    let deep = build(&[(1, 0), (2, 0), (3, 0), (4, 0), (9, 1)]);
    // Root holds 9; its left subtree holds 1..4 (4 items: ceil(3 / 3) = 1).
    assert_eq!(physical_height(&deep), 1);
}

#[test]
fn equal_rank_left_child_below_full_set_is_heap() {
    // A control set is always at capacity, so an equal-rank child is allowed.
    let inner = GTree::NonEmpty(Rc::new(GTreeNode {
        set: Rc::new(ControlSet(vec![(2, GTree::Empty)])),
        right: GTree::Empty,
        rank: 1,
    }));
    let t = GTree::NonEmpty(Rc::new(GTreeNode {
        set: Rc::new(ControlSet(vec![(5, inner)])),
        right: GTree::Empty,
        rank: 1,
    }));
    let (s, _) = gtree_stats(&t);
    assert!(s.is_heap);
    assert!(s.is_search_tree);
    assert_eq!(s.gnode_count, 2);
}

#[test]
fn equal_rank_left_child_below_free_slots_is_not_heap() {
    let inner: GTree<K3> = build(&[(2, 1)]);
    let t = GTree::NonEmpty(Rc::new(GTreeNode {
        set: Rc::new(K3::singleton((5, inner))),
        right: GTree::Empty,
        rank: 1,
    }));
    let (s, _) = gtree_stats(&t);
    assert!(!s.is_heap);
    assert!(s.is_search_tree);
}
