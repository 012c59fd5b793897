use gtree_experiments::klist::NonemptyReverseKList;
use gtree_experiments::{
    ControlSet, GTree, NonemptySet, NonemptySetMeta, SetCreationOperation, SetOrEmpty, create_set,
    possibly_empty_sets_assert_eq, sets_assert_eq,
};

type K3 = NonemptyReverseKList<3>;

fn ascending<S: NonemptySetMeta>(s: &S) -> Vec<u64> {
    (0..s.len()).map(|i| *s.get_by_index(i).unwrap()).collect()
}

fn maybe_items<S: NonemptySetMeta>(s: &SetOrEmpty<S>) -> Vec<u64> {
    match s {
        SetOrEmpty::Empty => vec![],
        SetOrEmpty::NonEmpty(x) => ascending(x),
    }
}

#[test]
fn klist_split_then_join() {
    let l = K3::from_descending(&[9, 7, 5, 3, 1]);
    let (left, mid, right) = l.split(&4);
    assert_eq!(maybe_items(&left), vec![1, 3]);
    assert!(mid.is_none());
    assert_eq!(maybe_items(&right), vec![5, 7, 9]);
    match (left, right) {
        (SetOrEmpty::NonEmpty(a), SetOrEmpty::NonEmpty(b)) => {
            let joined = K3::join(&a, &b);
            assert_eq!(joined, l);
        }
        _ => panic!("both parts are non-empty"),
    }
}

#[test]
fn klist_split_hit_returns_left_subtree() {
    let l = K3::from_descending(&[9, 7, 5, 3, 1]);
    let (left, mid, right) = l.split(&7);
    assert_eq!(maybe_items(&left), vec![1, 3, 5]);
    assert_eq!(mid, Some(GTree::Empty));
    assert_eq!(maybe_items(&right), vec![9]);
}

#[test]
fn klist_split_edges() {
    let l = K3::from_descending(&[9, 7, 5, 3, 1]);
    let (left, mid, right) = l.split(&10);
    assert_eq!(maybe_items(&left), vec![1, 3, 5, 7, 9]);
    assert!(mid.is_none());
    assert_eq!(right, SetOrEmpty::Empty);
    let (left, mid, right) = l.split(&0);
    assert_eq!(left, SetOrEmpty::Empty);
    assert!(mid.is_none());
    assert_eq!(maybe_items(&right), vec![1, 3, 5, 7, 9]);
    let (left, _, right) = l.split(&1);
    assert_eq!(left, SetOrEmpty::Empty);
    assert_eq!(maybe_items(&right), vec![3, 5, 7, 9]);
}

fn split_join_round_trip<S: NonemptySetMeta + std::fmt::Debug + PartialEq>(s: &S, key: u64) {
    let (left, mid, right) = s.split(&key);
    let right = match mid {
        Some(sub) => SetOrEmpty::NonEmpty(match right {
            SetOrEmpty::Empty => S::singleton((key, sub)),
            SetOrEmpty::NonEmpty(r) => r.insert_min((key, sub)),
        }),
        None => right,
    };
    let rebuilt = match (left, right) {
        (SetOrEmpty::NonEmpty(a), SetOrEmpty::NonEmpty(b)) => S::join(&a, &b),
        (SetOrEmpty::NonEmpty(a), SetOrEmpty::Empty) => a,
        (SetOrEmpty::Empty, SetOrEmpty::NonEmpty(b)) => b,
        (SetOrEmpty::Empty, SetOrEmpty::Empty) => panic!("split lost every item"),
    };
    assert_eq!(&rebuilt, s);
}

#[test]
fn split_join_round_trips() {
    for n in 1..12u64 {
        let desc: Vec<u64> = (0..n).rev().map(|x| x * 2 + 1).collect();
        let k = K3::from_descending(&desc);
        let c = ControlSet::from_descending(&desc);
        for key in 0..(2 * n + 2) {
            split_join_round_trip(&k, key);
            split_join_round_trip(&c, key);
        }
    }
}

#[test]
fn klist_only_tail_bucket_has_free_slots() {
    let mut l = K3::singleton((100, GTree::Empty));
    for x in (0..40u64).rev() {
        l = l.insert_min((x, GTree::Empty));
        let free = l.item_slot_count() - l.len();
        assert!(free < 3);
        assert_eq!(l.item_slot_count() % 3, 0);
    }
    for _ in 0..30 {
        l = match l.remove_min().1 {
            SetOrEmpty::NonEmpty(x) => x,
            SetOrEmpty::Empty => panic!("list emptied early"),
        };
        assert!(l.item_slot_count() - l.len() < 3);
    }
}

#[test]
fn klist_join_packs_buckets() {
    let a = K3::from_descending(&[5, 4, 3, 2]);
    let b = K3::from_descending(&[20, 10]);
    let j = K3::join(&a, &b);
    assert_eq!(ascending(&j), vec![2, 3, 4, 5, 10, 20]);
    assert_eq!(j.item_slot_count(), 6);
    assert_eq!(j, K3::from_descending(&[20, 10, 5, 4, 3, 2]));
}

#[test]
fn klist_search_matches_control() {
    let desc: Vec<u64> = vec![40, 33, 30, 21, 17, 12, 8, 3];
    let k = K3::from_descending(&desc);
    let c = ControlSet::from_descending(&desc);
    for key in 0..45u64 {
        let a = k.search(&key).map(|p| p.0);
        let b = c.search(&key).map(|p| p.0);
        assert_eq!(a, b);
    }
    assert_eq!(k.search(&13).map(|p| p.0), Some(17));
    assert_eq!(k.search(&41).map(|p| p.0), None);
}

#[test]
fn klist_accessors() {
    let k = K3::from_descending(&[9, 7, 5, 3, 1]);
    assert_eq!(*k.get_max(), 9);
    assert_eq!(*k.get_min(), 1);
    assert_eq!(k.len(), 5);
    assert_eq!(k.item_slot_count(), 6);
    assert_eq!(k.get_by_index(0), Some(&1));
    assert_eq!(k.get_by_index(4), Some(&9));
    assert_eq!(k.get_by_index(5), None);
    let (min, rest) = k.remove_min();
    assert_eq!(min.0, 1);
    assert_eq!(maybe_items(&rest), vec![3, 5, 7, 9]);
}

#[test]
fn control_accessors() {
    let c = ControlSet::from_descending(&[9, 7, 5]);
    assert_eq!(*c.get_max(), 9);
    assert_eq!(*c.get_min(), 5);
    assert_eq!(c.len(), 3);
    assert_eq!(c.item_slot_count(), 3);
    assert_eq!(c.get_by_index(1), Some(&7));
    let (min, rest) = ControlSet::singleton((4, GTree::Empty)).remove_min();
    assert_eq!(min.0, 4);
    assert_eq!(rest, SetOrEmpty::Empty);
}

fn use_ops() -> Vec<SetCreationOperation> {
    let one = |x| SetCreationOperation::Singleton(x);
    let ins = |s, x| SetCreationOperation::InsertMin(Box::new(s), x);
    let rem = |s| SetCreationOperation::RemoveMin(Box::new(s));
    vec![
        ins(ins(one(10), 7), 3),
        ins(one(10), 12),
        rem(ins(one(10), 7)),
        rem(rem(one(1))),
        ins(rem(one(1)), 50),
    ]
}

fn scripts() -> Vec<SetCreationOperation> {
    use_ops()
}

#[test]
fn create_set_klist_matches_control() {
    let expected: Vec<Option<Vec<u64>>> = vec![
        Some(vec![3, 7, 10]),
        None,
        Some(vec![10]),
        Some(vec![]),
        Some(vec![50]),
    ];
    for (script, (again, want)) in scripts().into_iter().zip(scripts().into_iter().zip(expected)) {
        let k: Option<SetOrEmpty<K3>> = create_set(script);
        let c: Option<SetOrEmpty<ControlSet>> = create_set(again);
        assert_eq!(k.as_ref().map(maybe_items), want);
        assert_eq!(c.as_ref().map(maybe_items), want);
        if let (Some(k), Some(c)) = (k, c) {
            assert!(possibly_empty_sets_assert_eq(&k, &c));
        }
    }
}

#[test]
fn set_comparison_reports_differences() {
    let a = K3::from_descending(&[5, 3, 1]);
    let b = ControlSet::from_descending(&[5, 3, 1]);
    let c = ControlSet::from_descending(&[5, 4, 1]);
    let d = ControlSet::from_descending(&[5, 3]);
    assert!(sets_assert_eq(&a, &b));
    assert!(!sets_assert_eq(&a, &c));
    assert!(!sets_assert_eq(&a, &d));
    assert!(!possibly_empty_sets_assert_eq(
        &SetOrEmpty::NonEmpty(a),
        &SetOrEmpty::<ControlSet>::Empty
    ));
}

#[test]
fn created_sets_have_empty_subtrees() {
    for script in scripts() {
        if let Some(SetOrEmpty::NonEmpty(k)) = create_set::<K3>(script) {
            for i in 0..k.len() {
                assert_eq!(k.get_pair_by_index(i).unwrap().1, GTree::Empty);
            }
        }
    }
}
