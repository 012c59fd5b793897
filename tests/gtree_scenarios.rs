use std::collections::BTreeSet;

use rand::SeedableRng;
use rand_distr::{Distribution, Geometric};

use gtree_experiments::klist::NonemptyReverseKList;
use gtree_experiments::{
    ControlSet, GTree, NonemptySetMeta, TreeCreation, create_ctrl_tree, create_gtree, create_tree,
    delete, has, insert, search, unzip, zip2, zip3,
};

type K3 = NonemptyReverseKList<3>;

fn inorder<S: NonemptySetMeta>(t: &GTree<S>, out: &mut Vec<u64>) {
    if let GTree::NonEmpty(node) = t {
        for i in 0..node.set.len() {
            let (item, sub) = node.set.get_pair_by_index(i).unwrap();
            inorder(sub, out);
            out.push(*item);
        }
        inorder(&node.right, out);
    }
}

fn items<S: NonemptySetMeta>(t: &GTree<S>) -> Vec<u64> {
    let mut out = vec![];
    inorder(t, &mut out);
    out
}

fn build<S: NonemptySetMeta>(pairs: &[(u64, u8)]) -> GTree<S> {
    let mut t = GTree::Empty;
    for (item, rank) in pairs {
        t = insert(&t, *item, *rank);
    }
    t
}

fn three_items() -> GTree<K3> {
    build(&[(10, 2), (20, 0), (5, 1)])
}

#[test]
fn three_inserts_membership_and_search() {
    let t = three_items();
    assert!(has(&t, &5));
    assert!(has(&t, &10));
    assert!(has(&t, &20));
    assert!(!has(&t, &15));
    assert_eq!(search(&t, &6), Some(10));
    assert_eq!(search(&t, &21), None);
}

#[test]
fn delete_middle_item() {
    let t = delete(&three_items(), &10);
    assert!(!has(&t, &10));
    assert_eq!(items(&t), vec![5, 20]);
    assert_eq!(search(&t, &6), Some(20));
}

#[test]
fn delete_absent_key_is_noop() {
    let t = insert(&GTree::<K3>::Empty, 42, 3);
    let d = delete(&t, &7);
    assert_eq!(d, insert(&GTree::<K3>::Empty, 42, 3));
}

#[test]
fn empty_tree_queries() {
    let t = GTree::<K3>::Empty;
    assert!(!has(&t, &0));
    assert_eq!(search(&t, &0), None);
    assert_eq!(delete(&t, &3), GTree::Empty);
    let (l, r) = unzip(&t, &5);
    assert_eq!(l, GTree::Empty);
    assert_eq!(r, GTree::Empty);
}

#[test]
fn search_exact_and_between() {
    let t: GTree<K3> = build(&[(2, 0), (4, 1), (6, 0), (8, 2), (10, 0)]);
    assert_eq!(search(&t, &4), Some(4));
    assert_eq!(search(&t, &5), Some(6));
    assert_eq!(search(&t, &0), Some(2));
    assert_eq!(search(&t, &10), Some(10));
    assert_eq!(search(&t, &11), None);
}

#[test]
fn opposite_insert_orders_give_equal_trees() {
    let ranks = |x: u64| ((x * 7 + 3) % 5) as u8;
    let first: Vec<(u64, u8)> = (0..20).map(|x| (x * 3, ranks(x))).collect();
    let second: Vec<(u64, u8)> = (0..20).map(|x| (x * 3 + 1, ranks(x + 11))).collect();
    let mut forward = first.clone();
    forward.extend(second.iter().cloned());
    let mut backward: Vec<(u64, u8)> = second.iter().rev().cloned().collect();
    backward.extend(first.iter().rev().cloned());
    let a: GTree<K3> = build(&forward);
    let b: GTree<K3> = build(&backward);
    assert_eq!(a, b);
    let c: GTree<ControlSet> = build(&forward);
    let d: GTree<ControlSet> = build(&backward);
    assert_eq!(c, d);
}

#[test]
fn insert_then_delete_restores_tree() {
    let base: GTree<K3> = build(&[(1, 0), (5, 2), (9, 1), (13, 0), (17, 3), (21, 1)]);
    for (item, rank) in [(0, 0), (7, 4), (11, 1), (30, 2), (15, 3)] {
        let t = delete(&insert(&base, item, rank), &item);
        assert_eq!(t, base);
    }
}

#[test]
fn reinserting_same_pair_is_idempotent() {
    let base: GTree<K3> = build(&[(1, 0), (5, 2), (9, 1), (13, 0)]);
    assert_eq!(insert(&base, 9, 1), base);
}

#[test]
fn unzip_partitions_items() {
    let t: GTree<K3> = build(&[(1, 0), (3, 1), (5, 0), (7, 2), (9, 1), (11, 0)]);
    let (l, r) = unzip(&t, &7);
    assert_eq!(items(&l), vec![1, 3, 5]);
    assert_eq!(items(&r), vec![9, 11]);
    let (l, r) = unzip(&t, &6);
    assert_eq!(items(&l), vec![1, 3, 5]);
    assert_eq!(items(&r), vec![7, 9, 11]);
    let z = zip2(&l, &r);
    assert_eq!(z, t);
}

#[test]
fn zip3_places_item_between() {
    let l: GTree<K3> = build(&[(1, 0), (2, 1)]);
    let r: GTree<K3> = build(&[(8, 0), (9, 2)]);
    let z = zip3(&l, 5, 1, &r);
    assert_eq!(items(&z), vec![1, 2, 5, 8, 9]);
    assert_eq!(z, build(&[(1, 0), (2, 1), (8, 0), (9, 2), (5, 1)]));
}

#[test]
fn equal_ranks_fill_one_node() {
    // Four items of the same rank: a bucket of three and one more in the same k-list.
    let t: GTree<K3> = build(&[(4, 1), (1, 1), (3, 1), (2, 1)]);
    match &t {
        GTree::NonEmpty(node) => {
            assert_eq!(node.rank, 1);
            assert_eq!(node.set.len(), 4);
            assert_eq!(node.set.item_slot_count(), 6);
            assert_eq!(node.right, GTree::Empty);
        }
        GTree::Empty => panic!("tree is empty"),
    }
}

#[test]
fn seeded_geometric_ranks_membership() {
    let k = 3.0f64;
    let geo = Geometric::new(1.0 - 1.0 / (k + 1.0)).unwrap();
    let mut rng = rand::rngs::StdRng::seed_from_u64(2024);
    let mut t = GTree::<K3>::Empty;
    for item in 0..15u64 {
        let rank = geo.sample(&mut rng) as u8;
        t = insert(&t, item, rank);
    }
    for q in 0..17u64 {
        assert_eq!(has(&t, &q), q < 15);
    }
    assert!(!has(&t, &u64::MAX));
}

fn lcg(state: &mut u64) -> u64 {
    *state = state.wrapping_mul(6364136223846793005).wrapping_add(1442695040888963407);
    *state >> 33
}

fn random_script(seed: u64, steps: usize) -> (TreeCreation, TreeCreation) {
    let mut s = seed;
    let mut a = TreeCreation::Empty;
    let mut b = TreeCreation::Empty;
    for _ in 0..steps {
        let item = lcg(&mut s) % 64;
        let rank = (lcg(&mut s) % 4) as u8;
        if lcg(&mut s) % 3 == 0 {
            a = TreeCreation::Remove(Box::new(a), item);
            b = TreeCreation::Remove(Box::new(b), item);
        } else {
            a = TreeCreation::Insert(Box::new(a), item, rank);
            b = TreeCreation::Insert(Box::new(b), item, rank);
        }
    }
    (a, b)
}

#[test]
fn membership_agrees_with_oracle() {
    for seed in 0..20 {
        let (script, same) = random_script(seed, 120);
        let t: GTree<K3> = create_tree(script);
        let oracle: BTreeSet<u64> = create_ctrl_tree(same);
        for k in 0..70u64 {
            assert_eq!(has(&t, &k), oracle.contains(&k));
        }
    }
}

#[test]
fn search_agrees_with_oracle() {
    for seed in 0..20 {
        let (script, same) = random_script(seed + 100, 100);
        let t: GTree<ControlSet> = create_tree(script);
        let oracle = create_ctrl_tree(same);
        for k in 0..70u64 {
            assert_eq!(search(&t, &k), oracle.range(k..).next().copied());
        }
    }
}

#[test]
fn inorder_is_sorted_oracle() {
    for seed in 0..20 {
        let (script, same) = random_script(seed + 200, 150);
        let t: GTree<K3> = create_tree(script);
        let oracle = create_ctrl_tree(same);
        assert_eq!(items(&t), oracle.into_iter().collect::<Vec<u64>>());
    }
}

#[test]
fn permutations_give_equal_trees() {
    let pairs: Vec<(u64, u8)> = (0..30).map(|x| (x * 5 % 31, (x % 4) as u8)).collect();
    let reference: GTree<K3> = build(&pairs);
    let mut s = 7u64;
    for _ in 0..10 {
        let mut p = pairs.clone();
        for i in (1..p.len()).rev() {
            let j = (lcg(&mut s) as usize) % (i + 1);
            p.swap(i, j);
        }
        assert_eq!(build::<K3>(&p), reference);
    }
}

#[test]
fn k1_lists_behave_like_zip_trees() {
    let t: GTree<NonemptyReverseKList<1>> = build(&[(3, 0), (1, 2), (2, 1), (5, 0), (4, 0)]);
    assert_eq!(items(&t), vec![1, 2, 3, 4, 5]);
    assert!(has(&t, &4));
    assert_eq!(search(&t, &0), Some(1));
}

#[test]
fn create_gtree_matches_repeated_insert() {
    let pairs = [(8u64, 1u8), (3, 0), (12, 2), (5, 0), (3, 0), (1, 1)];
    let t: GTree<K3> = create_gtree(&pairs);
    assert_eq!(t, build::<K3>(&pairs));
    assert_eq!(items(&t), vec![1, 3, 5, 8, 12]);
    let empty: GTree<K3> = create_gtree(&[]);
    assert_eq!(empty, GTree::Empty);
}
