use std::collections::BTreeSet;
use vstd::prelude::*;

use crate::gtree::{
    GTree, NonemptySet, NonemptySetMeta, SetOrEmpty, delete, entry_map, heap_ordered, insert,
    items_of, ranks, set_pairs, set_wf, tree_keys, valid,
};

verus! {

broadcast use {vstd::laws_cmp::group_laws_cmp, vstd::std_specs::btree::group_btree_axioms};

/// A script that builds a small set whose left subtrees are all empty.
#[derive(Debug, PartialEq, Eq)]
pub enum SetCreationOperation {
    Singleton(u64),
    InsertMin(Box<SetCreationOperation>, u64),
    RemoveMin(Box<SetCreationOperation>),
}

/// The ascending items of the set that `c` builds, or `None` when one of its steps
/// inserts an item that is not below every item present.
pub open spec fn script_items(c: SetCreationOperation) -> Option<Seq<u64>>
    decreases c,
{
    match c {
        SetCreationOperation::Singleton(x) => Some(seq![x]),
        SetCreationOperation::InsertMin(rec, x) => match script_items(*rec) {
            None => None,
            Some(s) => if s.len() == 0 {
                Some(seq![x])
            } else if s[0] <= x {
                None
            } else {
                Some(seq![x] + s)
            },
        },
        SetCreationOperation::RemoveMin(rec) => match script_items(*rec) {
            None => None,
            Some(s) => if s.len() == 0 {
                Some(s)
            } else {
                Some(s.skip(1))
            },
        },
    }
}

/// Runs a set script; `None` when a step is invalid.
pub fn create_set<S: NonemptySetMeta>(creation: SetCreationOperation) -> (r: Option<SetOrEmpty<S>>)
    requires
        S::holds_items(),
    ensures
        match r {
            None => script_items(creation) is None,
            Some(set) => {
                &&& set_wf(set)
                &&& script_items(creation) == Some(items_of(set_pairs(set)))
                &&& forall|j: int|
                    0 <= j < set_pairs(set).len() ==> #[trigger] set_pairs(set)[j].1 is Empty
            },
        },
    decreases creation,
{
    match creation {
        SetCreationOperation::Singleton(item) => {
            let s = S::singleton((item, GTree::Empty));
            assert(items_of(s.pairs()) =~= seq![item]);
            Some(SetOrEmpty::NonEmpty(s))
        },
        SetCreationOperation::InsertMin(creation_rec, item) => {
            match create_set::<S>(*creation_rec) {
                None => None,
                Some(set_rec) => {
                    match set_rec {
                        SetOrEmpty::Empty => {
                            let s = S::singleton((item, GTree::Empty));
                            assert(items_of(s.pairs()) =~= seq![item]);
                            Some(SetOrEmpty::NonEmpty(s))
                        },
                        SetOrEmpty::NonEmpty(neset_rec) => {
                            proof {
                                neset_rec.lemma_wf();
                            }
                            if *neset_rec.get_min() <= item {
                                None
                            } else {
                                let s = neset_rec.insert_min((item, GTree::Empty));
                                assert(items_of(s.pairs()) =~= seq![item] + items_of(
                                    neset_rec.pairs(),
                                ));
                                Some(SetOrEmpty::NonEmpty(s))
                            }
                        },
                    }
                },
            }
        },
        SetCreationOperation::RemoveMin(creation_rec) => {
            match create_set::<S>(*creation_rec) {
                None => None,
                Some(set_rec) => {
                    match set_rec {
                        SetOrEmpty::Empty => {
                            assert(items_of(set_pairs(SetOrEmpty::<S>::Empty)) =~= Seq::<
                                u64,
                            >::empty());
                            Some(SetOrEmpty::Empty)
                        },
                        SetOrEmpty::NonEmpty(neset_rec) => {
                            proof {
                                neset_rec.lemma_wf();
                            }
                            let rest = neset_rec.remove_min().1;
                            assert(items_of(set_pairs(rest)) =~= items_of(neset_rec.pairs()).skip(
                                1,
                            ));
                            Some(rest)
                        },
                    }
                },
            }
        },
    }
}

/// The items of a list of (item, rank) pairs.
pub open spec fn items_in(items: Seq<(u64, u8)>) -> Set<u64> {
    Set::new(|x: u64| exists|j: int| 0 <= j < items.len() && #[trigger] items[j].0 == x)
}

/// Inserts the (item, rank) pairs, in order, into an empty tree.
pub fn create_gtree<S: NonemptySet>(items: &[(u64, u8)]) -> (r: GTree<S>)
    requires
        S::holds_items(),
    ensures
        valid(r),
        heap_ordered(r),
        tree_keys(r) == items_in(items@),
        ranks(r) == entry_map(items@),
{
    let mut t = GTree::Empty;
    let mut i: usize = 0;
    assert(tree_keys(t) =~= items_in(items@.subrange(0, 0)));
    assert(items@.subrange(0, 0) =~= Seq::<(u64, u8)>::empty());
    assert(ranks(t) =~= entry_map(items@.subrange(0, 0)));
    while i < items.len()
        invariant
            S::holds_items(),
            0 <= i <= items@.len(),
            valid(t),
            heap_ordered(t),
            tree_keys(t) == items_in(items@.subrange(0, i as int)),
            ranks(t) == entry_map(items@.subrange(0, i as int)),
        decreases items@.len() - i,
    {
        let (item, rank) = items[i];
        t = insert(&t, item, rank);
        proof {
            let before = items@.subrange(0, i as int);
            let after = items@.subrange(0, i + 1);
            assert forall|x: u64| items_in(after).contains(x) <==> items_in(before).insert(item).contains(x) by {
                if items_in(after).contains(x) {
                    let j = choose|j: int| 0 <= j < after.len() && #[trigger] after[j].0 == x;
                    if j < i {
                        assert(before[j].0 == x);
                    }
                }
                if items_in(before).contains(x) {
                    let j = choose|j: int| 0 <= j < before.len() && #[trigger] before[j].0 == x;
                    assert(after[j].0 == x);
                }
                if x == item {
                    assert(after[i as int].0 == x);
                }
            }
            assert(items_in(after) =~= items_in(before).insert(item));
            assert(after.drop_last() =~= before);
        }
        i = i + 1;
    }
    assert(items@.subrange(0, i as int) =~= items@);
    t
}

/// A script of insertions and deletions that builds a tree.
#[derive(Debug, PartialEq, Eq)]
pub enum TreeCreation {
    Empty,
    Insert(Box<TreeCreation>, u64, u8),
    Remove(Box<TreeCreation>, u64),
}

/// The items present after running the script `c`.
pub open spec fn script_keys(c: TreeCreation) -> Set<u64>
    decreases c,
{
    match c {
        TreeCreation::Empty => Set::empty(),
        TreeCreation::Insert(rec, item, _rank) => script_keys(*rec).insert(item),
        TreeCreation::Remove(rec, item) => script_keys(*rec).remove(item),
    }
}

/// The rank of each item present after running the script `c`.
pub open spec fn script_ranks(c: TreeCreation) -> Map<u64, u8>
    decreases c,
{
    match c {
        TreeCreation::Empty => Map::empty(),
        TreeCreation::Insert(rec, item, rank) => script_ranks(*rec).insert(item, rank),
        TreeCreation::Remove(rec, item) => script_ranks(*rec).remove(item),
    }
}

/// Runs a tree script on a G-tree.
pub fn create_tree<S: NonemptySet>(creation: TreeCreation) -> (r: GTree<S>)
    requires
        S::holds_items(),
    ensures
        valid(r),
        heap_ordered(r),
        tree_keys(r) == script_keys(creation),
        ranks(r) == script_ranks(creation),
    decreases creation,
{
    match creation {
        TreeCreation::Empty => {
            assert(tree_keys(GTree::<S>::Empty) =~= Set::<u64>::empty());
            assert(ranks(GTree::<S>::Empty) =~= Map::<u64, u8>::empty());
            GTree::Empty
        },
        TreeCreation::Insert(creation_rec, item, rank) => {
            let tree_rec = create_tree::<S>(*creation_rec);
            insert(&tree_rec, item, rank)
        },
        TreeCreation::Remove(creation_rec, item) => {
            let tree_rec = create_tree::<S>(*creation_rec);
            delete(&tree_rec, &item)
        },
    }
}

/// Runs a tree script on an ordered set, the oracle for `create_tree`.
pub fn create_ctrl_tree(creation: TreeCreation) -> (r: BTreeSet<u64>)
    ensures
        r@ == script_keys(creation),
    decreases creation,
{
    match creation {
        TreeCreation::Empty => BTreeSet::new(),
        TreeCreation::Insert(creation_rec, item, _rank) => {
            let mut tree_rec = create_ctrl_tree(*creation_rec);
            tree_rec.insert(item);
            tree_rec
        },
        TreeCreation::Remove(creation_rec, item) => {
            let mut tree_rec = create_ctrl_tree(*creation_rec);
            tree_rec.remove(&item);
            tree_rec
        },
    }
}

} // verus!
