use std::rc::Rc;
use vstd::prelude::*;

verus! {

/// A possibly empty inner set.
#[derive(Debug, PartialEq, Eq)]
pub enum SetOrEmpty<S> {
    NonEmpty(S),
    Empty,
}

/// A G-tree node: a non-empty set of (item, left subtree) pairs sharing `rank`,
/// and one right subtree holding the items greater than every item of `set`.
#[derive(Debug, PartialEq, Eq)]
pub struct GTreeNode<S> {
    pub set: Rc<S>,
    pub right: GTree<S>,
    pub rank: u8,
}

/// A G-tree: empty, or a shared node.
#[derive(Debug, PartialEq, Eq)]
pub enum GTree<S> {
    NonEmpty(Rc<GTreeNode<S>>),
    Empty,
}

impl<S> Clone for GTree<S> {
    fn clone(&self) -> (r: Self)
        ensures
            r == *self,
    {
        match self {
            GTree::NonEmpty(n) => GTree::NonEmpty(Rc::clone(n)),
            GTree::Empty => GTree::Empty,
        }
    }
}

pub open spec fn strictly_ascending(s: Seq<u64>) -> bool {
    forall|i: int, j: int| 0 <= i < j < s.len() ==> s[i] < s[j]
}

/// The items of a sequence of pairs, in order.
pub open spec fn items_of<S>(ps: Seq<(u64, GTree<S>)>) -> Seq<u64> {
    ps.map_values(|p: (u64, GTree<S>)| p.0)
}

/// The contract of an ordered, non-empty inner set of (item, left subtree) pairs.
pub trait NonemptySet: Sized {
    /// The pairs of the set, by ascending item.
    spec fn pairs(&self) -> Seq<(u64, GTree<Self>)>;

    /// The representation invariant of the set.
    spec fn wf(&self) -> bool;

    proof fn lemma_wf(&self)
        requires
            self.wf(),
        ensures
            self.pairs().len() > 0,
            strictly_ascending(items_of(self.pairs())),
            Self::holds_items(),
    ;

    /// Left subtrees are strictly smaller values than the node that holds them.
    proof fn lemma_subtree_decreases(t: GTree<Self>, i: int)
        requires
            t is NonEmpty,
            t->NonEmpty_0.set.wf(),
            0 <= i < t->NonEmpty_0.set.pairs().len(),
        ensures
            decreases_to!(t => t->NonEmpty_0.set.pairs()[i].1),
    ;

    /// Whether a set of this type can hold an item at all.
    spec fn holds_items() -> bool;

    fn singleton(item: (u64, GTree<Self>)) -> (r: Self)
        requires
            Self::holds_items(),
        ensures
            r.wf(),
            r.pairs() == seq![item],
    ;

    /// Partitions the set by `key`: the pairs below `key`, the left subtree of `key`
    /// if `key` is in the set, and the pairs above `key`.
    fn split(&self, key: &u64) -> (r: (SetOrEmpty<Self>, Option<GTree<Self>>, SetOrEmpty<Self>))
        requires
            self.wf(),
        ensures
            r.0 is NonEmpty ==> r.0->NonEmpty_0.wf(),
            r.2 is NonEmpty ==> r.2->NonEmpty_0.wf(),
            ({
                let lo = if r.0 is NonEmpty { r.0->NonEmpty_0.pairs() } else { seq![] };
                let hi = if r.2 is NonEmpty { r.2->NonEmpty_0.pairs() } else { seq![] };
                lo + mid_pairs(*key, r.1) + hi == self.pairs()
            }),
            r.0 is NonEmpty ==> forall|i: int|
                0 <= i < r.0->NonEmpty_0.pairs().len() ==> #[trigger] r.0->NonEmpty_0.pairs()[i].0
                    < *key,
            r.2 is NonEmpty ==> forall|i: int|
                0 <= i < r.2->NonEmpty_0.pairs().len() ==> #[trigger] r.2->NonEmpty_0.pairs()[i].0
                    > *key,
    ;

    fn join(left: &Self, right: &Self) -> (r: Self)
        requires
            left.wf(),
            right.wf(),
            left.pairs().last().0 < right.pairs()[0].0,
        ensures
            r.wf(),
            r.pairs() == left.pairs() + right.pairs(),
    ;

    fn remove_min(&self) -> (r: ((u64, GTree<Self>), SetOrEmpty<Self>))
        requires
            self.wf(),
        ensures
            r.0 == self.pairs()[0],
            r.1 is NonEmpty ==> r.1->NonEmpty_0.wf(),
            r.1 is NonEmpty ==> r.1->NonEmpty_0.pairs() == self.pairs().skip(1),
            r.1 is Empty ==> self.pairs().len() == 1,
    ;

    fn insert_min(&self, new_min: (u64, GTree<Self>)) -> (r: Self)
        requires
            self.wf(),
            new_min.0 < self.pairs()[0].0,
        ensures
            r.wf(),
            r.pairs() == seq![new_min] + self.pairs(),
    ;

    /// The pair with the least item that is greater than or equal to `key`, if any.
    fn search(&self, key: &u64) -> (r: Option<(u64, GTree<Self>)>)
        requires
            self.wf(),
        ensures
            match r {
                None => forall|i: int| 0 <= i < self.pairs().len() ==> self.pairs()[i].0 < *key,
                Some(p) => exists|i: int|
                    0 <= i < self.pairs().len() && #[trigger] self.pairs()[i] == p && p.0 >= *key && (i == 0
                        || self.pairs()[i - 1].0 < *key),
            },
    ;
}


/// The pairs made of `items` in reverse order, each with an empty left subtree.
pub open spec fn ascending_of<S>(items: Seq<u64>) -> Seq<(u64, GTree<S>)> {
    Seq::new(items.len(), |i: int| (items[items.len() - 1 - i], GTree::<S>::Empty))
}

pub open spec fn descending(items: Seq<u64>) -> bool {
    forall|i: int, j: int| 0 <= i < j < items.len() ==> items[i] > items[j]
}

/// Additional methods on inner sets, for testing and statistics.
pub trait NonemptySetMeta: NonemptySet {
    /// The number of items the set can hold without allocating more memory.
    spec fn slot_count(&self) -> nat;

    /// The greatest item.
    fn get_max(&self) -> (r: &u64)
        requires
            self.wf(),
        ensures
            *r == self.pairs().last().0,
    ;

    /// The least item.
    fn get_min(&self) -> (r: &u64)
        requires
            self.wf(),
        ensures
            *r == self.pairs()[0].0,
    ;

    /// The number of items.
    fn len(&self) -> (r: usize)
        requires
            self.wf(),
            self.pairs().len() <= usize::MAX,
        ensures
            r == self.pairs().len(),
    ;

    /// The pair at `index`, where index 0 denotes the least item.
    fn get_pair_by_index(&self, index: usize) -> (r: Option<&(u64, GTree<Self>)>)
        requires
            self.wf(),
            self.pairs().len() <= usize::MAX,
        ensures
            r is Some <==> index < self.pairs().len(),
            r is Some ==> *r->Some_0 == self.pairs()[index as int],
    ;

    /// The item at `index`, where index 0 denotes the least item.
    fn get_by_index(&self, index: usize) -> (r: Option<&u64>)
        requires
            self.wf(),
            self.pairs().len() <= usize::MAX,
        ensures
            r is Some <==> index < self.pairs().len(),
            r is Some ==> *r->Some_0 == self.pairs()[index as int].0,
    {
        match self.get_pair_by_index(index) {
            Some(p) => Some(&p.0),
            None => None,
        }
    }

    /// A set of the given strictly descending items, each with an empty left subtree.
    fn from_descending(items: &[u64]) -> (r: Self)
        requires
            Self::holds_items(),
            items@.len() > 0,
            descending(items@),
        ensures
            r.wf(),
            r.pairs() == ascending_of::<Self>(items@),
    ;

    /// The number of item slots allocated, used to measure space amplification.
    fn item_slot_count(&self) -> (r: usize)
        requires
            self.wf(),
            self.slot_count() <= usize::MAX,
        ensures
            r == self.slot_count(),
            self.pairs().len() <= self.slot_count(),
    ;
}

pub open spec fn set_pairs<S: NonemptySet>(s: SetOrEmpty<S>) -> Seq<(u64, GTree<S>)> {
    match s {
        SetOrEmpty::NonEmpty(x) => x.pairs(),
        SetOrEmpty::Empty => seq![],
    }
}

pub open spec fn set_wf<S: NonemptySet>(s: SetOrEmpty<S>) -> bool {
    match s {
        SetOrEmpty::NonEmpty(x) => x.wf(),
        SetOrEmpty::Empty => true,
    }
}

pub open spec fn mid_pairs<S>(key: u64, m: Option<GTree<S>>) -> Seq<(u64, GTree<S>)> {
    match m {
        Some(t) => seq![(key, t)],
        None => seq![],
    }
}

/// In-order sequence of the items of a tree.
pub open spec fn tree_seq<S: NonemptySet>(t: GTree<S>) -> Seq<u64>
    decreases t, 1int,
{
    match t {
        GTree::Empty => seq![],
        GTree::NonEmpty(n) => pairs_flat(t, n.set.pairs().len() as int) + tree_seq(t->NonEmpty_0.right),
    }
}

/// In-order sequence of the first `i` pairs of the root set of `t`, with their left subtrees.
pub open spec fn pairs_flat<S: NonemptySet>(t: GTree<S>, i: int) -> Seq<u64>
    decreases t, 0int, i,
    via pairs_flat_decreases::<S>
{
    if t is Empty || !t->NonEmpty_0.set.wf() || i <= 0 || i > t->NonEmpty_0.set.pairs().len() {
        seq![]
    } else {
        pairs_flat(t, i - 1) + tree_seq(t->NonEmpty_0.set.pairs()[i - 1].1) + seq![
            t->NonEmpty_0.set.pairs()[i - 1].0,
        ]
    }
}

#[via_fn]
proof fn pairs_flat_decreases<S: NonemptySet>(t: GTree<S>, i: int) {
    if !(t is Empty || !t->NonEmpty_0.set.wf() || i <= 0 || i > t->NonEmpty_0.set.pairs().len()) {
        S::lemma_subtree_decreases(t, i - 1);
    }
}

/// Every inner set in the tree satisfies its representation invariant.
pub open spec fn tree_wf<S: NonemptySet>(t: GTree<S>) -> bool
    decreases t, 1int,
{
    match t {
        GTree::Empty => true,
        GTree::NonEmpty(n) => n.set.wf() && pairs_wf(t, n.set.pairs().len() as int) && tree_wf(
            n.right,
        ),
    }
}

pub open spec fn pairs_wf<S: NonemptySet>(t: GTree<S>, i: int) -> bool
    decreases t, 0int, i,
    via pairs_wf_decreases::<S>
{
    if t is Empty || !t->NonEmpty_0.set.wf() || i <= 0 || i > t->NonEmpty_0.set.pairs().len() {
        true
    } else {
        pairs_wf(t, i - 1) && tree_wf(t->NonEmpty_0.set.pairs()[i - 1].1)
    }
}

#[via_fn]
proof fn pairs_wf_decreases<S: NonemptySet>(t: GTree<S>, i: int) {
    if !(t is Empty || !t->NonEmpty_0.set.wf() || i <= 0 || i > t->NonEmpty_0.set.pairs().len()) {
        S::lemma_subtree_decreases(t, i - 1);
    }
}

/// In-order sequence of a sequence of pairs with their left subtrees.
pub open spec fn flat<S: NonemptySet>(ps: Seq<(u64, GTree<S>)>) -> Seq<u64>
    decreases ps.len(),
{
    if ps.len() == 0 {
        seq![]
    } else {
        flat(ps.drop_last()) + tree_seq(ps.last().1) + seq![ps.last().0]
    }
}


/// Rank of the root, -1 for the empty tree.
pub open spec fn rank_of<S>(t: GTree<S>) -> int {
    match t {
        GTree::Empty => -1,
        GTree::NonEmpty(n) => n.rank as int,
    }
}

/// Heap order on ranks: every subtree hanging from a node, left or right, has a root
/// rank below the rank of the node.
pub open spec fn heap_ordered<S: NonemptySet>(t: GTree<S>) -> bool
    decreases t, 1int,
{
    match t {
        GTree::Empty => true,
        GTree::NonEmpty(n) => pairs_heap_ordered(t, n.set.pairs().len() as int) && heap_ordered(
            n.right,
        ) && rank_of(n.right) < n.rank,
    }
}

pub open spec fn pairs_heap_ordered<S: NonemptySet>(t: GTree<S>, i: int) -> bool
    decreases t, 0int, i,
    via pairs_heap_ordered_decreases::<S>
{
    if t is Empty || !t->NonEmpty_0.set.wf() || i <= 0 || i > t->NonEmpty_0.set.pairs().len() {
        true
    } else {
        &&& pairs_heap_ordered(t, i - 1)
        &&& heap_ordered(t->NonEmpty_0.set.pairs()[i - 1].1)
        &&& rank_of(t->NonEmpty_0.set.pairs()[i - 1].1) < t->NonEmpty_0.rank
    }
}

#[via_fn]
proof fn pairs_heap_ordered_decreases<S: NonemptySet>(t: GTree<S>, i: int) {
    if !(t is Empty || !t->NonEmpty_0.set.wf() || i <= 0 || i > t->NonEmpty_0.set.pairs().len()) {
        S::lemma_subtree_decreases(t, i - 1);
    }
}

/// Every left subtree of `ps` is heap ordered, with a root rank below `rank`.
pub open spec fn subtrees_below<S: NonemptySet>(ps: Seq<(u64, GTree<S>)>, rank: int) -> bool {
    forall|j: int|
        0 <= j < ps.len() ==> #[trigger] heap_ordered(ps[j].1) && rank_of(ps[j].1) < rank
}

proof fn lemma_pairs_heap_ordered<S: NonemptySet>(t: GTree<S>, i: int)
    requires
        t is NonEmpty,
        t->NonEmpty_0.set.wf(),
        0 <= i <= t->NonEmpty_0.set.pairs().len(),
    ensures
        pairs_heap_ordered(t, i) <==> subtrees_below(
            t->NonEmpty_0.set.pairs().take(i),
            t->NonEmpty_0.rank as int,
        ),
    decreases i,
{
    let ps = t->NonEmpty_0.set.pairs();
    let rk = t->NonEmpty_0.rank as int;
    if i > 0 {
        lemma_pairs_heap_ordered(t, i - 1);
        let a = ps.take(i - 1);
        let b = ps.take(i);
        assert forall|j: int| 0 <= j < i - 1 implies a[j] == b[j] && b[j] == ps[j] by {}
        assert(b[i - 1] == ps[i - 1]);
        if subtrees_below(b, rk) {
            assert forall|j: int| 0 <= j < a.len() implies #[trigger] heap_ordered(a[j].1)
                && rank_of(a[j].1) < rk by {
                assert(heap_ordered(b[j].1));
            }
            assert(heap_ordered(b[i - 1].1));
        }
        if pairs_heap_ordered(t, i) {
            assert forall|j: int| 0 <= j < b.len() implies #[trigger] heap_ordered(b[j].1)
                && rank_of(b[j].1) < rk by {
                if j < i - 1 {
                    assert(heap_ordered(a[j].1));
                }
            }
        }
    } else {
        assert(ps.take(0).len() == 0);
    }
}

/// Unfolds heap order at a node.
pub proof fn lemma_heap_node<S: NonemptySet>(t: GTree<S>)
    requires
        t is NonEmpty,
        t->NonEmpty_0.set.wf(),
    ensures
        heap_ordered(t) <==> (subtrees_below(t->NonEmpty_0.set.pairs(), t->NonEmpty_0.rank as int)
            && heap_ordered(t->NonEmpty_0.right) && rank_of(t->NonEmpty_0.right)
            < t->NonEmpty_0.rank),
{
    let ps = t->NonEmpty_0.set.pairs();
    lemma_pairs_heap_ordered(t, ps.len() as int);
    assert(ps.take(ps.len() as int) =~= ps);
}


/// In-order sequence of the items of a tree, each with the rank of the node that holds it.
pub open spec fn tree_entries<S: NonemptySet>(t: GTree<S>) -> Seq<(u64, u8)>
    decreases t, 1int,
{
    match t {
        GTree::Empty => seq![],
        GTree::NonEmpty(n) => pairs_entries(t, n.set.pairs().len() as int) + tree_entries(n.right),
    }
}

pub open spec fn pairs_entries<S: NonemptySet>(t: GTree<S>, i: int) -> Seq<(u64, u8)>
    decreases t, 0int, i,
    via pairs_entries_decreases::<S>
{
    if t is Empty || !t->NonEmpty_0.set.wf() || i <= 0 || i > t->NonEmpty_0.set.pairs().len() {
        seq![]
    } else {
        pairs_entries(t, i - 1) + tree_entries(t->NonEmpty_0.set.pairs()[i - 1].1) + seq![
            (t->NonEmpty_0.set.pairs()[i - 1].0, t->NonEmpty_0.rank),
        ]
    }
}

#[via_fn]
proof fn pairs_entries_decreases<S: NonemptySet>(t: GTree<S>, i: int) {
    if !(t is Empty || !t->NonEmpty_0.set.wf() || i <= 0 || i > t->NonEmpty_0.set.pairs().len()) {
        S::lemma_subtree_decreases(t, i - 1);
    }
}

/// In-order entries of a sequence of pairs held at rank `rank`, with their left subtrees.
pub open spec fn flat_entries<S: NonemptySet>(ps: Seq<(u64, GTree<S>)>, rank: u8) -> Seq<(u64, u8)>
    decreases ps.len(),
{
    if ps.len() == 0 {
        seq![]
    } else {
        flat_entries(ps.drop_last(), rank) + tree_entries(ps.last().1) + seq![(ps.last().0, rank)]
    }
}

/// The rank of each item, from a sequence of entries.
pub open spec fn entry_map(es: Seq<(u64, u8)>) -> Map<u64, u8>
    decreases es.len(),
{
    if es.len() == 0 {
        Map::empty()
    } else {
        entry_map(es.drop_last()).insert(es.last().0, es.last().1)
    }
}

/// The rank of each item of a tree: the rank of the node that holds it.
pub open spec fn ranks<S: NonemptySet>(t: GTree<S>) -> Map<u64, u8> {
    entry_map(tree_entries(t))
}

/// The items of a sequence of entries.
pub open spec fn entry_items(es: Seq<(u64, u8)>) -> Seq<u64> {
    es.map_values(|e: (u64, u8)| e.0)
}

proof fn lemma_flat_entries_concat<S: NonemptySet>(
    a: Seq<(u64, GTree<S>)>,
    b: Seq<(u64, GTree<S>)>,
    rank: u8,
)
    ensures
        flat_entries(a + b, rank) == flat_entries(a, rank) + flat_entries(b, rank),
    decreases b.len(),
{
    if b.len() == 0 {
        assert(a + b =~= a);
        assert(flat_entries(b, rank) =~= Seq::<(u64, u8)>::empty());
        assert(flat_entries(a, rank) + flat_entries(b, rank) =~= flat_entries(a, rank));
    } else {
        assert((a + b).drop_last() =~= a + b.drop_last());
        lemma_flat_entries_concat(a, b.drop_last(), rank);
        assert(flat_entries(a + b, rank) =~= flat_entries(a, rank) + flat_entries(b, rank));
    }
}

proof fn lemma_flat_entries_one<S: NonemptySet>(p: (u64, GTree<S>), rank: u8)
    ensures
        flat_entries(seq![p], rank) == tree_entries(p.1) + seq![(p.0, rank)],
{
    assert(seq![p].drop_last() =~= Seq::<(u64, GTree<S>)>::empty());
    assert(flat_entries(Seq::<(u64, GTree<S>)>::empty(), rank) =~= Seq::<(u64, u8)>::empty());
    assert(flat_entries(seq![p], rank) =~= tree_entries(p.1) + seq![(p.0, rank)]);
}

proof fn lemma_flat_entries_first<S: NonemptySet>(ps: Seq<(u64, GTree<S>)>, i: int, rank: u8)
    requires
        0 <= i < ps.len(),
    ensures
        flat_entries(ps.take(i), rank) + tree_entries(ps[i].1) + seq![(ps[i].0, rank)]
            + flat_entries(ps.skip(i + 1), rank) == flat_entries(ps, rank),
{
    lemma_flat_entries_concat(ps.take(i), seq![ps[i]], rank);
    lemma_flat_entries_one(ps[i], rank);
    lemma_flat_entries_concat(ps.take(i) + seq![ps[i]], ps.skip(i + 1), rank);
    assert(ps.take(i) + seq![ps[i]] + ps.skip(i + 1) =~= ps);
}

proof fn lemma_pairs_entries<S: NonemptySet>(t: GTree<S>, i: int)
    requires
        t is NonEmpty,
        t->NonEmpty_0.set.wf(),
        0 <= i <= t->NonEmpty_0.set.pairs().len(),
    ensures
        pairs_entries(t, i) == flat_entries(t->NonEmpty_0.set.pairs().take(i), t->NonEmpty_0.rank),
    decreases i,
{
    let ps = t->NonEmpty_0.set.pairs();
    if i == 0 {
        assert(ps.take(0) =~= Seq::<(u64, GTree<S>)>::empty());
    } else {
        lemma_pairs_entries(t, i - 1);
        assert(ps.take(i).drop_last() =~= ps.take(i - 1));
    }
}

/// Unfolds the entries of a non-empty tree.
pub proof fn lemma_entries_node<S: NonemptySet>(t: GTree<S>)
    requires
        t is NonEmpty,
        t->NonEmpty_0.set.wf(),
    ensures
        tree_entries(t) == flat_entries(t->NonEmpty_0.set.pairs(), t->NonEmpty_0.rank)
            + tree_entries(t->NonEmpty_0.right),
{
    let ps = t->NonEmpty_0.set.pairs();
    lemma_pairs_entries(t, ps.len() as int);
    assert(ps.take(ps.len() as int) =~= ps);
}

/// The items of the entries of a tree are its in-order items.
pub proof fn lemma_entry_items<S: NonemptySet>(t: GTree<S>)
    requires
        tree_wf(t),
    ensures
        entry_items(tree_entries(t)) == tree_seq(t),
    decreases t, 1int,
{
    if t is NonEmpty {
        lemma_node(t);
        lemma_entries_node(t);
        lemma_flat_entry_items(t, t->NonEmpty_0.set.pairs().len() as int);
        lemma_entry_items(right_of(t));
        let ps = t->NonEmpty_0.set.pairs();
        assert(ps.take(ps.len() as int) =~= ps);
        assert(entry_items(tree_entries(t)) =~= tree_seq(t));
    } else {
        assert(entry_items(tree_entries(t)) =~= tree_seq(t));
    }
}

proof fn lemma_flat_entry_items<S: NonemptySet>(t: GTree<S>, i: int)
    requires
        t is NonEmpty,
        tree_wf(t),
        0 <= i <= t->NonEmpty_0.set.pairs().len(),
    ensures
        entry_items(flat_entries(t->NonEmpty_0.set.pairs().take(i), t->NonEmpty_0.rank)) == flat(
            t->NonEmpty_0.set.pairs().take(i),
        ),
    decreases t, 0int, i,
{
    let ps = t->NonEmpty_0.set.pairs();
    let rk = t->NonEmpty_0.rank;
    lemma_node(t);
    if i == 0 {
        assert(ps.take(0) =~= Seq::<(u64, GTree<S>)>::empty());
        assert(entry_items(flat_entries(ps.take(0), rk)) =~= flat(ps.take(0)));
    } else {
        lemma_flat_entry_items(t, i - 1);
        S::lemma_subtree_decreases(t, i - 1);
        assert(tree_wf(ps[i - 1].1));
        lemma_entry_items(ps[i - 1].1);
        assert(ps.take(i).drop_last() =~= ps.take(i - 1));
        assert(ps.take(i).last() == ps[i - 1]);
        assert(entry_items(flat_entries(ps.take(i), rk)) =~= flat(ps.take(i)));
    }
}

/// The rank map of a concatenation: later entries take precedence.
pub proof fn lemma_entry_map_concat(a: Seq<(u64, u8)>, b: Seq<(u64, u8)>)
    ensures
        entry_map(a + b) == entry_map(a).union_prefer_right(entry_map(b)),
    decreases b.len(),
{
    if b.len() == 0 {
        assert(a + b =~= a);
        assert(entry_map(a).union_prefer_right(entry_map(b)) =~= entry_map(a));
    } else {
        assert((a + b).drop_last() =~= a + b.drop_last());
        lemma_entry_map_concat(a, b.drop_last());
        assert(entry_map(a + b) =~= entry_map(a).union_prefer_right(entry_map(b)));
    }
}

/// The items of the rank map of `es` are the items of `es`.
pub proof fn lemma_entry_map_dom(es: Seq<(u64, u8)>)
    ensures
        entry_map(es).dom() == entry_items(es).to_set(),
    decreases es.len(),
{
    if es.len() > 0 {
        lemma_entry_map_dom(es.drop_last());
        let a = entry_items(es.drop_last());
        assert(entry_items(es) =~= a.push(es.last().0));
        assert forall|x: u64| entry_items(es).contains(x) <==> (a.contains(x) || x == es.last().0) by {
            if entry_items(es).contains(x) {
                let k = choose|k: int| 0 <= k < entry_items(es).len() && entry_items(es)[k] == x;
                if k < a.len() {
                    assert(a[k] == x);
                }
            }
            if a.contains(x) {
                let k = choose|k: int| 0 <= k < a.len() && a[k] == x;
                assert(entry_items(es)[k] == x);
            }
            if x == es.last().0 {
                assert(entry_items(es)[es.len() - 1] == x);
            }
        }
        assert(entry_map(es).dom() == entry_map(es.drop_last()).dom().insert(es.last().0));
        assert forall|x: u64| entry_map(es).dom().contains(x) <==> entry_items(es).to_set().contains(x) by {
            assert(a.to_set().contains(x) <==> a.contains(x));
            assert(entry_items(es).to_set().contains(x) <==> entry_items(es).contains(x));
        }
        assert(entry_map(es).dom() =~= entry_items(es).to_set());
    } else {
        assert(entry_map(es).dom() =~= entry_items(es).to_set());
    }
}

/// A valid tree: well-formed inner sets, and items in strictly ascending in-order sequence.
pub open spec fn valid<S: NonemptySet>(t: GTree<S>) -> bool {
    tree_wf(t) && strictly_ascending(tree_seq(t))
}

pub open spec fn node_of<S>(set: S, right: GTree<S>, rank: u8) -> GTree<S> {
    GTree::NonEmpty(Rc::new(GTreeNode { set: Rc::new(set), right, rank }))
}

pub proof fn lemma_flat_concat<S: NonemptySet>(a: Seq<(u64, GTree<S>)>, b: Seq<(u64, GTree<S>)>)
    ensures
        flat(a + b) == flat(a) + flat(b),
    decreases b.len(),
{
    if b.len() == 0 {
        assert(a + b =~= a);
    } else {
        assert((a + b).drop_last() =~= a + b.drop_last());
        lemma_flat_concat(a, b.drop_last());
    }
}

proof fn lemma_flat_one<S: NonemptySet>(p: (u64, GTree<S>))
    ensures
        flat(seq![p]) == tree_seq(p.1) + seq![p.0],
{
    assert(seq![p].drop_last() =~= Seq::<(u64, GTree<S>)>::empty());
    assert(flat(Seq::<(u64, GTree<S>)>::empty()) =~= Seq::<u64>::empty());
}

pub(crate) proof fn lemma_pairs_flat<S: NonemptySet>(t: GTree<S>, i: int)
    requires
        t is NonEmpty,
        t->NonEmpty_0.set.wf(),
        0 <= i <= t->NonEmpty_0.set.pairs().len(),
    ensures
        pairs_flat(t, i) == flat(t->NonEmpty_0.set.pairs().take(i)),
    decreases i,
{
    let ps = t->NonEmpty_0.set.pairs();
    if i == 0 {
        assert(ps.take(0) =~= Seq::<(u64, GTree<S>)>::empty());
    } else {
        lemma_pairs_flat(t, i - 1);
        assert(ps.take(i).drop_last() =~= ps.take(i - 1));
    }
}

proof fn lemma_pairs_wf<S: NonemptySet>(t: GTree<S>, i: int)
    requires
        t is NonEmpty,
        t->NonEmpty_0.set.wf(),
        0 <= i <= t->NonEmpty_0.set.pairs().len(),
    ensures
        pairs_wf(t, i) <==> forall|j: int|
            0 <= j < i ==> #[trigger] tree_wf(t->NonEmpty_0.set.pairs()[j].1),
    decreases i,
{
    let ps = t->NonEmpty_0.set.pairs();
    if i > 0 {
        lemma_pairs_wf(t, i - 1);
        if pairs_wf(t, i) {
            assert forall|j: int| 0 <= j < i implies #[trigger] tree_wf(ps[j].1) by {
                if j < i - 1 {
                    assert(tree_wf(ps[j].1));
                }
            }
        }
        if forall|j: int| 0 <= j < i ==> #[trigger] tree_wf(ps[j].1) {
            assert(tree_wf(ps[i - 1].1));
            assert forall|j: int| 0 <= j < i - 1 implies #[trigger] tree_wf(ps[j].1) by {
                assert(tree_wf(ps[j].1));
            }
        }
    }
}

/// Unfolds the in-order sequence and the well-formedness of a non-empty tree.
pub proof fn lemma_node<S: NonemptySet>(t: GTree<S>)
    requires
        t is NonEmpty,
        t->NonEmpty_0.set.wf(),
    ensures
        tree_seq(t) == flat(t->NonEmpty_0.set.pairs()) + tree_seq(t->NonEmpty_0.right),
        tree_wf(t) <==> (tree_wf(t->NonEmpty_0.right) && forall|j: int|
            0 <= j < t->NonEmpty_0.set.pairs().len() ==> #[trigger] tree_wf(
                t->NonEmpty_0.set.pairs()[j].1,
            )),
{
    let ps = t->NonEmpty_0.set.pairs();
    lemma_pairs_flat(t, ps.len() as int);
    assert(ps.take(ps.len() as int) =~= ps);
    lemma_pairs_wf(t, ps.len() as int);
}

/// The last element of `flat(ps)` is the greatest item of `ps`.
pub(crate) proof fn lemma_flat_last<S: NonemptySet>(ps: Seq<(u64, GTree<S>)>)
    requires
        ps.len() > 0,
    ensures
        flat(ps).len() > 0,
        flat(ps).last() == ps.last().0,
{
}

pub(crate) proof fn lemma_flat_first<S: NonemptySet>(ps: Seq<(u64, GTree<S>)>, i: int)
    requires
        0 <= i < ps.len(),
    ensures
        flat(ps.take(i)) + tree_seq(ps[i].1) + seq![ps[i].0] + flat(ps.skip(i + 1)) == flat(ps),
{
    lemma_flat_concat(ps.take(i), seq![ps[i]]);
    lemma_flat_one(ps[i]);
    lemma_flat_concat(ps.take(i) + seq![ps[i]], ps.skip(i + 1));
    assert(ps.take(i) + seq![ps[i]] + ps.skip(i + 1) =~= ps);
}


/// The right subtree of a non-empty tree.
pub open spec fn right_of<S>(t: GTree<S>) -> GTree<S> {
    t->NonEmpty_0.right
}

/// In-order sequence of the right subtree of a non-empty tree.
pub open spec fn right_seq<S: NonemptySet>(t: GTree<S>) -> Seq<u64> {
    tree_seq(t->NonEmpty_0.right)
}

/// Every element of `a` is less than every element of `b`.
pub open spec fn all_less(a: Seq<u64>, b: Seq<u64>) -> bool {
    forall|i: int, j: int| 0 <= i < a.len() && 0 <= j < b.len() ==> a[i] < b[j]
}

pub open spec fn all_below(a: Seq<u64>, key: int) -> bool {
    forall|i: int| 0 <= i < a.len() ==> a[i] < key
}

pub open spec fn all_above(a: Seq<u64>, key: int) -> bool {
    forall|i: int| 0 <= i < a.len() ==> a[i] > key
}

pub open spec fn subtrees_wf<S: NonemptySet>(ps: Seq<(u64, GTree<S>)>) -> bool {
    forall|j: int| 0 <= j < ps.len() ==> #[trigger] tree_wf(ps[j].1)
}

pub proof fn lemma_sorted_concat(a: Seq<u64>, b: Seq<u64>)
    ensures
        strictly_ascending(a + b) <==> (strictly_ascending(a) && strictly_ascending(b)
            && all_less(a, b)),
{
    if strictly_ascending(a + b) {
        assert forall|i: int, j: int| 0 <= i < j < a.len() implies a[i] < a[j] by {
            assert(a[i] == (a + b)[i] && a[j] == (a + b)[j]);
        }
        assert forall|i: int, j: int| 0 <= i < j < b.len() implies b[i] < b[j] by {
            assert(b[i] == (a + b)[a.len() + i] && b[j] == (a + b)[a.len() + j]);
        }
        assert forall|i: int, j: int| 0 <= i < a.len() && 0 <= j < b.len() implies a[i] < b[j] by {
            assert(a[i] == (a + b)[i] && b[j] == (a + b)[a.len() + j]);
        }
    }
    if strictly_ascending(a) && strictly_ascending(b) && all_less(a, b) {
        assert forall|i: int, j: int| 0 <= i < j < (a + b).len() implies (a + b)[i] < (a + b)[j] by {
            if j < a.len() {
            } else if i >= a.len() {
                assert((a + b)[i] == b[i - a.len()] && (a + b)[j] == b[j - a.len()]);
            } else {
                assert((a + b)[i] == a[i] && (a + b)[j] == b[j - a.len()]);
            }
        }
    }
}

proof fn lemma_contains_mid(a: Seq<u64>, b: Seq<u64>, c: Seq<u64>, key: u64)
    requires
        all_below(a, key as int),
        all_above(c, key as int),
    ensures
        (a + b + c).contains(key) <==> b.contains(key),
{
    let s = a + b + c;
    if s.contains(key) {
        let i = choose|i: int| 0 <= i < s.len() && s[i] == key;
        if i < a.len() {
            assert(s[i] == a[i]);
        } else if i >= a.len() + b.len() {
            assert(s[i] == c[i - a.len() - b.len()]);
        } else {
            assert(b[i - a.len()] == key);
        }
    }
    if b.contains(key) {
        let i = choose|i: int| 0 <= i < b.len() && b[i] == key;
        assert(s[a.len() + i] == key);
    }
}

/// Decomposes the in-order sequence of a valid node around its `i`-th pair.
proof fn lemma_node_at<S: NonemptySet>(t: GTree<S>, i: int)
    requires
        t is NonEmpty,
        valid(t),
        0 <= i < t->NonEmpty_0.set.pairs().len(),
    ensures
        ({
            let ps = t->NonEmpty_0.set.pairs();
            let a = flat(ps.take(i));
            let b = tree_seq(ps[i].1);
            let c = flat(ps.skip(i + 1)) + right_seq(t);
            &&& tree_seq(t) == a + b + seq![ps[i].0] + c
            &&& valid(ps[i].1)
            &&& all_below(a, ps[i].0 as int)
            &&& all_below(b, ps[i].0 as int)
            &&& all_above(c, ps[i].0 as int)
            &&& all_less(a, b)
            &&& strictly_ascending(a + b)
            &&& strictly_ascending(a)
            &&& strictly_ascending(c)
            &&& i > 0 ==> all_below(a, ps[i - 1].0 + 1)
            &&& i > 0 ==> a.len() > 0 && a.last() == ps[i - 1].0
        }),
{
    let ps = t->NonEmpty_0.set.pairs();
    let a = flat(ps.take(i));
    let b = tree_seq(ps[i].1);
    let x = seq![ps[i].0];
    let c = flat(ps.skip(i + 1)) + right_seq(t);
    lemma_node(t);
    lemma_flat_first(ps, i);
    assert(tree_seq(t) =~= ((a + b) + x) + c);
    lemma_sorted_concat((a + b) + x, c);
    lemma_sorted_concat(a + b, x);
    lemma_sorted_concat(a, b);
    assert(tree_wf(ps[i].1));
    assert forall|k: int| 0 <= k < c.len() implies c[k] > ps[i].0 by {
        assert(((a + b) + x)[(a.len() + b.len()) as int] == ps[i].0);
    }
    assert forall|k: int| 0 <= k < a.len() implies a[k] < ps[i].0 by {
        assert((a + b + x)[k] == a[k]);
        assert((a + b + x)[(a.len() + b.len()) as int] == ps[i].0);
    }
    assert forall|k: int| 0 <= k < b.len() implies b[k] < ps[i].0 by {
        assert((a + b + x)[a.len() + k] == b[k]);
        assert((a + b + x)[(a.len() + b.len()) as int] == ps[i].0);
    }
    if i > 0 {
        lemma_flat_last(ps.take(i));
        assert(ps.take(i).last() == ps[i - 1]);
    }
}

/// Decomposes the in-order sequence of a valid node into its pairs and its right subtree.
pub(crate) proof fn lemma_node_valid<S: NonemptySet>(t: GTree<S>)
    requires
        t is NonEmpty,
        valid(t),
    ensures
        ({
            let ps = t->NonEmpty_0.set.pairs();
            let a = flat(ps);
            let c = tree_seq(t->NonEmpty_0.right);
            &&& tree_seq(t) == a + c
            &&& valid(t->NonEmpty_0.right)
            &&& t->NonEmpty_0.set.wf()
            &&& subtrees_wf(ps)
            &&& all_less(a, c)
            &&& strictly_ascending(a)
            &&& a.len() > 0 && a.last() == ps.last().0
            &&& all_below(a, ps.last().0 + 1)
            &&& all_above(c, ps.last().0 as int)
        }),
{
    let ps = t->NonEmpty_0.set.pairs();
    lemma_node(t);
    t->NonEmpty_0.set.lemma_wf();
    lemma_sorted_concat(flat(ps), right_seq(t));
    lemma_flat_last(ps);
    let a = flat(ps);
    assert forall|k: int| 0 <= k < tree_seq(t->NonEmpty_0.right).len() implies tree_seq(t->NonEmpty_0.right)[k] > ps.last().0 by {
        assert(a[a.len() - 1] == ps.last().0);
    }
}

proof fn lemma_new_node<S: NonemptySet>(set: S, right: GTree<S>, rank: u8)
    requires
        set.wf(),
    ensures
        tree_seq(node_of(set, right, rank)) == flat(set.pairs()) + tree_seq(right),
        tree_wf(node_of(set, right, rank)) <== set.wf() && tree_wf(right) && subtrees_wf(
            set.pairs(),
        ),
{
    lemma_node(node_of(set, right, rank));
}

impl<S: NonemptySet> SetOrEmpty<S> {
    /// Adds a new least pair; the empty set becomes a singleton.
    fn insert_min(&self, new_min: (u64, GTree<S>)) -> (r: S)
        requires
            set_wf(*self),
            self is Empty ==> S::holds_items(),
            self is NonEmpty ==> new_min.0 < self->NonEmpty_0.pairs()[0].0,
        ensures
            r.wf(),
            r.pairs() == seq![new_min] + set_pairs(*self),
    {
        match self {
            SetOrEmpty::Empty => {
                let r = S::singleton(new_min);
                assert(seq![new_min] + set_pairs(*self) =~= seq![new_min]);
                r
            },
            SetOrEmpty::NonEmpty(s) => s.insert_min(new_min),
        }
    }
}

fn update_leftmost<S: NonemptySet>(node: &GTreeNode<S>, leftmost: GTree<S>) -> (r: Rc<GTreeNode<S>>)
    requires
        node.set.wf(),
    ensures
        r.set.wf(),
        r.set.pairs() == node.set.pairs().update(0, (node.set.pairs()[0].0, leftmost)),
        r.right == node.right,
        r.rank == node.rank,
{
    proof {
        node.set.lemma_wf();
    }
    let ((leftmost_item, _), other_pairs) = node.set.remove_min();
    let ghost ps = node.set.pairs();
    proof {
        if other_pairs is NonEmpty {
            other_pairs->NonEmpty_0.lemma_wf();
            assert(ps[1] == ps.skip(1)[0]);
            assert(items_of(ps)[0] == ps[0].0 && items_of(ps)[1] == ps[1].0);
        }
    }
    let set = other_pairs.insert_min((leftmost_item, leftmost));
    assert(set.pairs() =~= ps.update(0, (ps[0].0, leftmost)));
    Rc::new(GTreeNode { set: Rc::new(set), right: node.right.clone(), rank: node.rank })
}

fn update_right<S: NonemptySet>(node: &GTreeNode<S>, right: GTree<S>) -> (r: Rc<GTreeNode<S>>)
    ensures
        r.set == node.set,
        r.right == right,
        r.rank == node.rank,
{
    Rc::new(GTreeNode { set: Rc::clone(&node.set), right, rank: node.rank })
}

// A (non-empty) GTree has a root node made of a rank, a right subtree and a non-empty set.
// A possibly empty set is lifted to a tree: an empty set leaves just the right subtree.
fn lift<S: NonemptySet>(s: SetOrEmpty<S>, right: GTree<S>, rank: u8) -> (r: GTree<S>)
    requires
        set_wf(s),
    ensures
        tree_seq(r) == flat(set_pairs(s)) + tree_seq(right),
        tree_wf(r) <== set_wf(s) && tree_wf(right) && subtrees_wf(set_pairs(s)),
        heap_ordered(r) <== subtrees_below(set_pairs(s), rank as int) && heap_ordered(right)
            && rank_of(right) < rank,
        rank_of(right) < rank ==> rank_of(r) <= rank,
        tree_entries(r) == flat_entries(set_pairs(s), rank) + tree_entries(right),
{
    match s {
        SetOrEmpty::Empty => {
            assert(flat(set_pairs(s)) + tree_seq(right) =~= tree_seq(right));
            assert(flat_entries(set_pairs(s), rank) + tree_entries(right) =~= tree_entries(right));
            right
        },
        SetOrEmpty::NonEmpty(set) => {
            proof {
                lemma_new_node(set, right, rank);
                lemma_heap_node(node_of(set, right, rank));
                lemma_entries_node(node_of(set, right, rank));
            }
            GTree::NonEmpty(Rc::new(GTreeNode { rank, set: Rc::new(set), right }))
        },
    }
}




/// `e` splits into `el` and `er`, with or without one entry for `key` between them.
pub open spec fn split_entries(e: Seq<(u64, u8)>, el: Seq<(u64, u8)>, er: Seq<(u64, u8)>, key: u64) -> bool {
    e == el + er || (e.len() == el.len() + er.len() + 1 && e == el + seq![(key, e[el.len() as int].1)]
        + er)
}

proof fn lemma_split_entries_wrap(
    a: Seq<(u64, u8)>,
    e: Seq<(u64, u8)>,
    el: Seq<(u64, u8)>,
    er: Seq<(u64, u8)>,
    c: Seq<(u64, u8)>,
    key: u64,
)
    requires
        split_entries(e, el, er, key),
    ensures
        split_entries(a + e + c, a + el, er + c, key),
{
    if e == el + er {
        assert(a + e + c =~= (a + el) + (er + c));
    } else {
        let x = seq![(key, e[el.len() as int].1)];
        assert(a + e + c =~= (a + el) + x + (er + c));
        assert((a + e + c)[(a + el).len() as int] == e[el.len() as int]);
    }
}

proof fn lemma_unzip_entries_hit<S: NonemptySet>(
    t: GTree<S>,
    lp: Seq<(u64, GTree<S>)>,
    m: GTree<S>,
    hp: Seq<(u64, GTree<S>)>,
    l: GTree<S>,
    r: GTree<S>,
    key: u64,
)
    requires
        t is NonEmpty,
        t->NonEmpty_0.set.wf(),
        t->NonEmpty_0.set.pairs() == lp + seq![(key, m)] + hp,
        tree_entries(l) == flat_entries(lp, t->NonEmpty_0.rank) + tree_entries(m),
        tree_entries(r) == flat_entries(hp, t->NonEmpty_0.rank) + tree_entries(right_of(t)),
    ensures
        split_entries(tree_entries(t), tree_entries(l), tree_entries(r), key),
{
    let rk = t->NonEmpty_0.rank;
    lemma_entries_node(t);
    lemma_flat_entries_concat(lp + seq![(key, m)], hp, rk);
    lemma_flat_entries_concat(lp, seq![(key, m)], rk);
    lemma_flat_entries_one((key, m), rk);
    assert(tree_entries(t) =~= tree_entries(l) + seq![(key, rk)] + tree_entries(r));
    assert(tree_entries(t)[tree_entries(l).len() as int] == (key, rk));
}

proof fn lemma_unzip_entries_right<S: NonemptySet>(
    t: GTree<S>,
    l: GTree<S>,
    left: GTree<S>,
    right: GTree<S>,
    key: u64,
)
    requires
        t is NonEmpty,
        t->NonEmpty_0.set.wf(),
        split_entries(tree_entries(right_of(t)), tree_entries(left), tree_entries(right), key),
        tree_entries(l) == flat_entries(t->NonEmpty_0.set.pairs(), t->NonEmpty_0.rank)
            + tree_entries(left),
    ensures
        split_entries(tree_entries(t), tree_entries(l), tree_entries(right), key),
{
    let a = flat_entries(t->NonEmpty_0.set.pairs(), t->NonEmpty_0.rank);
    lemma_entries_node(t);
    lemma_split_entries_wrap(
        a,
        tree_entries(right_of(t)),
        tree_entries(left),
        tree_entries(right),
        Seq::<(u64, u8)>::empty(),
        key,
    );
    assert(a + tree_entries(right_of(t)) + Seq::<(u64, u8)>::empty() =~= tree_entries(t));
    assert(tree_entries(right) + Seq::<(u64, u8)>::empty() =~= tree_entries(right));
}

proof fn lemma_unzip_entries_left<S: NonemptySet>(
    t: GTree<S>,
    i: int,
    l: GTree<S>,
    r: GTree<S>,
    left: GTree<S>,
    right: GTree<S>,
    key: u64,
)
    requires
        t is NonEmpty,
        t->NonEmpty_0.set.wf(),
        0 <= i < t->NonEmpty_0.set.pairs().len(),
        split_entries(
            tree_entries(t->NonEmpty_0.set.pairs()[i].1),
            tree_entries(left),
            tree_entries(right),
            key,
        ),
        tree_entries(l) == flat_entries(t->NonEmpty_0.set.pairs().take(i), t->NonEmpty_0.rank)
            + tree_entries(left),
        tree_entries(r) == tree_entries(right) + seq![
            (t->NonEmpty_0.set.pairs()[i].0, t->NonEmpty_0.rank),
        ] + flat_entries(t->NonEmpty_0.set.pairs().skip(i + 1), t->NonEmpty_0.rank)
            + tree_entries(right_of(t)),
    ensures
        split_entries(tree_entries(t), tree_entries(l), tree_entries(r), key),
{
    let ps = t->NonEmpty_0.set.pairs();
    let rk = t->NonEmpty_0.rank;
    lemma_entries_node(t);
    lemma_flat_entries_first(ps, i, rk);
    let a = flat_entries(ps.take(i), rk);
    let c = seq![(ps[i].0, rk)] + flat_entries(ps.skip(i + 1), rk) + tree_entries(right_of(t));
    lemma_split_entries_wrap(a, tree_entries(ps[i].1), tree_entries(left), tree_entries(right), c, key);
    assert(a + tree_entries(ps[i].1) + c =~= tree_entries(t));
    assert(tree_entries(right) + c =~= tree_entries(r));
}

/// The rank maps of the two halves of an unzip are the rank map of the whole cut to the
/// items below and above the key.
proof fn lemma_unzip_ranks<S: NonemptySet>(t: GTree<S>, key: u64, l: GTree<S>, r: GTree<S>)
    requires
        tree_wf(l),
        tree_wf(r),
        all_below(tree_seq(l), key as int),
        all_above(tree_seq(r), key as int),
        split_entries(tree_entries(t), tree_entries(l), tree_entries(r), key),
    ensures
        ranks(l) == ranks(t).restrict(between(None, Some(key))),
        ranks(r) == ranks(t).restrict(between(Some(key), None)),
{
    lemma_entry_items(l);
    lemma_entry_items(r);
    let el = tree_entries(l);
    let er = tree_entries(r);
    let e = tree_entries(t);
    let mid = if e == el + er {
        Seq::<(u64, u8)>::empty()
    } else {
        seq![(key, e[el.len() as int].1)]
    };
    assert(e =~= el + mid + er);
    let below = between(None, Some(key));
    let above = between(Some(key), None);
    assert forall|k: int| 0 <= k < el.len() implies below.contains(#[trigger] el[k].0)
        && !above.contains(el[k].0) by {
        assert(entry_items(el)[k] == el[k].0);
    }
    assert forall|k: int| 0 <= k < er.len() implies above.contains(#[trigger] er[k].0)
        && !below.contains(er[k].0) by {
        assert(entry_items(er)[k] == er[k].0);
    }
    let empty = Seq::<(u64, u8)>::empty();
    assert(forall|k: int| 0 <= k < mid.len() ==> #[trigger] mid[k].0 == key);
    lemma_entry_map_restrict(empty, el, mid + er, below);
    assert(empty + el + (mid + er) =~= e);
    lemma_entry_map_restrict(el + mid, er, empty, above);
    assert(el + mid + er + empty =~= e);
}

/// `b` splits at `key` into `sl` and `sr`, with or without `key` itself between them.
pub open spec fn split_at_key(b: Seq<u64>, sl: Seq<u64>, sr: Seq<u64>, key: u64) -> bool {
    b == sl + sr || b == sl + seq![key] + sr
}

proof fn lemma_split_parts(b: Seq<u64>, sl: Seq<u64>, sr: Seq<u64>, key: u64)
    requires
        split_at_key(b, sl, sr, key),
    ensures
        forall|k: int| 0 <= k < sl.len() ==> sl[k] == #[trigger] b[k],
        forall|k: int| 0 <= k < sr.len() ==> sr[k] == #[trigger] b[b.len() - sr.len() + k],
{
    if b == sl + sr {
        assert forall|k: int| 0 <= k < sr.len() implies sr[k] == #[trigger] b[b.len() - sr.len() + k] by {
            assert(b[b.len() - sr.len() + k] == (sl + sr)[sl.len() + k]);
        }
    } else {
        assert forall|k: int| 0 <= k < sr.len() implies sr[k] == #[trigger] b[b.len() - sr.len() + k] by {
            assert(b[b.len() - sr.len() + k] == (sl + seq![key] + sr)[sl.len() + 1 + k]);
        }
    }
}

/// Reassembles the pieces when the right subtree of a node is split.
proof fn lemma_unzip_right(a: Seq<u64>, b: Seq<u64>, sl: Seq<u64>, sr: Seq<u64>, key: u64)
    requires
        split_at_key(b, sl, sr, key),
        strictly_ascending(a),
        strictly_ascending(sl),
        all_less(a, b),
        all_below(a, key as int),
        all_below(sl, key as int),
    ensures
        strictly_ascending(a + sl),
        all_below(a + sl, key as int),
        split_at_key(a + b, a + sl, sr, key),
{
    lemma_split_parts(b, sl, sr, key);
    assert forall|x: int, y: int| 0 <= x < a.len() && 0 <= y < sl.len() implies a[x] < sl[y] by {
        assert(sl[y] == b[y]);
    }
    lemma_sorted_concat(a, sl);
    assert forall|k: int| 0 <= k < (a + sl).len() implies (a + sl)[k] < key by {
        if k < a.len() {
            assert((a + sl)[k] == a[k]);
        } else {
            assert((a + sl)[k] == sl[k - a.len()]);
        }
    }
    if b == sl + sr {
        assert(a + b =~= (a + sl) + sr);
    } else {
        assert(a + b =~= (a + sl) + seq![key] + sr);
    }
}

/// Reassembles the pieces when the left subtree of the least item above `key` is split.
proof fn lemma_unzip_left(
    a: Seq<u64>,
    b: Seq<u64>,
    mi: u64,
    c: Seq<u64>,
    sl: Seq<u64>,
    sr: Seq<u64>,
    key: u64,
)
    requires
        split_at_key(b, sl, sr, key),
        strictly_ascending(a),
        strictly_ascending(sl),
        strictly_ascending(sr),
        strictly_ascending(c),
        all_less(a, b),
        all_below(b, mi as int),
        all_above(c, mi as int),
        all_below(a, key as int),
        all_below(sl, key as int),
        all_above(sr, key as int),
        mi > key,
    ensures
        strictly_ascending(a + sl),
        strictly_ascending(sr + seq![mi] + c),
        all_below(a + sl, key as int),
        all_above(sr + seq![mi] + c, key as int),
        split_at_key(a + b + seq![mi] + c, a + sl, sr + seq![mi] + c, key),
{
    lemma_unzip_right(a, b, sl, sr, key);
    lemma_split_parts(b, sl, sr, key);
    assert(all_below(sr, mi as int)) by {
        assert forall|k: int| 0 <= k < sr.len() implies sr[k] < mi by {
            assert(sr[k] == b[b.len() - sr.len() + k]);
        }
    }
    lemma_sorted_concat(sr, seq![mi]);
    assert(all_less(sr + seq![mi], c)) by {
        assert forall|x: int, y: int| 0 <= x < (sr + seq![mi]).len() && 0 <= y < c.len() implies (sr
            + seq![mi])[x] < c[y] by {
            if x < sr.len() {
                assert((sr + seq![mi])[x] == sr[x]);
            }
        }
    }
    lemma_sorted_concat(sr + seq![mi], c);
    let rr = sr + seq![mi] + c;
    assert forall|k: int| 0 <= k < rr.len() implies rr[k] > key by {
        if k < sr.len() {
            assert(rr[k] == sr[k]);
        } else if k == sr.len() {
            assert(rr[k] == mi);
        } else {
            assert(rr[k] == c[k - sr.len() - 1]);
        }
    }
    if b == sl + sr {
        assert(a + b + seq![mi] + c =~= (a + sl) + rr);
    } else {
        assert(a + b + seq![mi] + c =~= (a + sl) + seq![key] + rr);
    }
}

/// Splits `t` into the tree of its items below `key` and the tree of its items above
/// `key`; `key` itself, if present, is dropped.
#[verifier::rlimit(100)]
#[verifier::spinoff_prover]
pub fn unzip<S: NonemptySet>(t: &GTree<S>, key: &u64) -> (r: (GTree<S>, GTree<S>))
    requires
        valid(*t),
    ensures
        valid(r.0),
        valid(r.1),
        all_below(tree_seq(r.0), *key as int),
        all_above(tree_seq(r.1), *key as int),
        split_at_key(tree_seq(*t), tree_seq(r.0), tree_seq(r.1), *key),
        split_entries(tree_entries(*t), tree_entries(r.0), tree_entries(r.1), *key),
        ranks(r.0) == ranks(*t).restrict(between(None, Some(*key))),
        ranks(r.1) == ranks(*t).restrict(between(Some(*key), None)),
        heap_ordered(*t) ==> heap_ordered(r.0) && heap_ordered(r.1) && rank_of(r.0) <= rank_of(*t)
            && rank_of(r.1) <= rank_of(*t),
    decreases t,
{
    match t {
        GTree::Empty => {
            assert(tree_seq(*t) =~= tree_seq(GTree::<S>::Empty) + tree_seq(GTree::<S>::Empty));
            assert(ranks(*t).restrict(between(None, Some(*key))) =~= ranks(GTree::<S>::Empty));
            assert(ranks(*t).restrict(between(Some(*key), None)) =~= ranks(GTree::<S>::Empty));
            (GTree::Empty, GTree::Empty)
        },
        GTree::NonEmpty(s) => {
            proof {
                lemma_node_valid(*t);
                s.set.lemma_wf();
            }
            let ghost ps = s.set.pairs();
            let (left_set, mid, right_set) = s.set.split(key);
            let ghost lp = set_pairs(left_set);
            let ghost hp = set_pairs(right_set);
            let ghost i = lp.len() as int;
            assert(lp + mid_pairs(*key, mid) + hp == ps);
            assert(ps.take(i) =~= lp);
            assert(forall|j: int| 0 <= j < hp.len() ==> #[trigger] hp[j].0 > *key);
            assert(forall|j: int| 0 <= j < lp.len() ==> #[trigger] lp[j].0 < *key);
            proof {
                assert forall|j: int| 0 <= j < lp.len() implies #[trigger] tree_wf(lp[j].1) by {
                    assert(lp[j] == ps[j]);
                }
                if i > 0 {
                    assert(lp.last() == ps[i - 1]);
                }
            }
            match mid {
                Some(left_subtree_of_key) => {
                    proof {
                        assert(ps[i] == (*key, left_subtree_of_key));
                        assert(ps.skip(i + 1) =~= hp);
                        assert forall|j: int| 0 <= j < hp.len() implies #[trigger] tree_wf(
                            hp[j].1,
                        ) by {
                            assert(hp[j] == ps[i + 1 + j]);
                        }
                        lemma_node_at(*t, i);
                        if heap_ordered(*t) {
                            lemma_heap_node(*t);
                            assert(heap_ordered(ps[i].1));
                            assert forall|j: int| 0 <= j < lp.len() implies #[trigger] heap_ordered(
                                lp[j].1,
                            ) && rank_of(lp[j].1) < s.rank by {
                                assert(lp[j] == ps[j]);
                                assert(heap_ordered(ps[j].1));
                            }
                            assert forall|j: int| 0 <= j < hp.len() implies #[trigger] heap_ordered(
                                hp[j].1,
                            ) && rank_of(hp[j].1) < s.rank by {
                                assert(hp[j] == ps[i + 1 + j]);
                                assert(heap_ordered(ps[i + 1 + j].1));
                            }
                        }
                    }
                    let l = lift(left_set, left_subtree_of_key, s.rank);
                    let r = lift(right_set, s.right.clone(), s.rank);
                    proof {
                        let a = flat(lp);
                        let b = tree_seq(left_subtree_of_key);
                        assert(tree_seq(l) == a + b);
                        assert(tree_seq(*t) =~= tree_seq(l) + seq![*key] + tree_seq(r));
                        lemma_unzip_entries_hit(*t, lp, left_subtree_of_key, hp, l, r, *key);
                        lemma_sorted_concat(a, b);
                        assert forall|k: int| 0 <= k < tree_seq(l).len() implies tree_seq(l)[k]
                            < *key by {
                            if k < a.len() {
                                assert(tree_seq(l)[k] == a[k]);
                            } else {
                                assert(tree_seq(l)[k] == b[k - a.len()]);
                            }
                        }
                    }
                    proof {
                        lemma_unzip_ranks(*t, *key, l, r);
                    }
                    (l, r)
                },
                None => {
                    match right_set {
                        SetOrEmpty::Empty => {
                            assert(lp =~= ps);
                            let (left, right) = unzip(&s.right, key);
                            let l = GTree::NonEmpty(update_right(s, left));
                            proof {
                                lemma_node(l);
                                assert(all_below(flat(ps), *key as int)) by {
                                    assert(lp[lp.len() - 1].0 < *key);
                                }
                                lemma_unzip_right(flat(ps), right_seq(*t), tree_seq(left), tree_seq(right), *key);
                                lemma_entries_node(l);
                                lemma_unzip_entries_right(*t, l, left, right, *key);
                                if heap_ordered(*t) {
                                    lemma_heap_node(*t);
                                    lemma_heap_node(l);
                                }
                            }
                            proof {
                                lemma_unzip_ranks(*t, *key, l, right);
                            }
                            (l, right)
                        },
                        SetOrEmpty::NonEmpty(r) => {
                            proof {
                                r.lemma_wf();
                                assert(hp =~= ps.skip(i));
                                assert(ps[i] == hp[0]);
                                lemma_node_at(*t, i);
                                S::lemma_subtree_decreases(*t, i);
                                assert(items_of(ps)[i] == ps[i].0);
                                if i + 1 < ps.len() {
                                    assert(items_of(ps)[i + 1] == ps[i + 1].0);
                                }
                            }
                            let ((r_leftmost_item, r_leftmost_subtree), r_remaining) =
                                r.remove_min();
                            proof {
                                if r_remaining is NonEmpty {
                                    r_remaining->NonEmpty_0.lemma_wf();
                                    assert(set_pairs(r_remaining) =~= ps.skip(i + 1));
                                    assert(ps.skip(i + 1)[0] == ps[i + 1]);
                                    assert(ps[i].0 < ps[i + 1].0);
                                } else {
                                    assert(ps.skip(i + 1) =~= Seq::<(u64, GTree<S>)>::empty());
                                }
                            }
                            let ghost rest = ps.skip(i + 1);
                            let (left, right) = unzip(&r_leftmost_subtree, key);
                            proof {
                                if heap_ordered(*t) {
                                    lemma_heap_node(*t);
                                    assert(heap_ordered(ps[i].1));
                                    assert forall|j: int| 0 <= j < lp.len() implies #[trigger] heap_ordered(
                                        lp[j].1,
                                    ) && rank_of(lp[j].1) < s.rank by {
                                        assert(lp[j] == ps[j]);
                                        assert(heap_ordered(ps[j].1));
                                    }
                                }
                            }
                            let l = lift(left_set, left, s.rank);
                            let new_set = r_remaining.insert_min((r_leftmost_item, right.clone()));
                            let rr = GTree::NonEmpty(
                                Rc::new(
                                    GTreeNode {
                                        rank: s.rank,
                                        set: Rc::new(new_set),
                                        right: s.right.clone(),
                                    },
                                ),
                            );
                            proof {
                                let mi = r_leftmost_item;
                                let rest = ps.skip(i + 1);
                                assert(set_pairs(r_remaining) =~= rest);
                                lemma_node(rr);
                                lemma_flat_concat(seq![(mi, right)], rest);
                                lemma_flat_one((mi, right));
                                assert(tree_seq(rr) =~= tree_seq(right) + seq![mi] + (flat(rest)
                                    + right_seq(*t)));
                                lemma_entries_node(rr);
                                lemma_flat_entries_concat(seq![(mi, right)], rest, s.rank);
                                lemma_flat_entries_one((mi, right), s.rank);
                                assert(tree_entries(rr) =~= tree_entries(right) + seq![(mi, s.rank)]
                                    + flat_entries(rest, s.rank) + tree_entries(right_of(*t)));
                                lemma_unzip_entries_left(*t, i, l, rr, left, right, *key);
                                if i > 0 {
                                    assert(lp[lp.len() - 1].0 < *key);
                                }
                                assert(mi > *key) by {
                                    assert(hp[0].0 > *key);
                                }
                                lemma_unzip_left(
                                    flat(lp),
                                    tree_seq(r_leftmost_subtree),
                                    mi,
                                    flat(rest) + right_seq(*t),
                                    tree_seq(left),
                                    tree_seq(right),
                                    *key,
                                );
                                assert forall|j: int|
                                    0 <= j < rr->NonEmpty_0.set.pairs().len() implies #[trigger] tree_wf(
                                    rr->NonEmpty_0.set.pairs()[j].1,
                                ) by {
                                    if j > 0 {
                                        assert(rr->NonEmpty_0.set.pairs()[j] == ps[i + j]);
                                    }
                                }
                                if heap_ordered(*t) {
                                    lemma_heap_node(*t);
                                    lemma_heap_node(rr);
                                    let nps = rr->NonEmpty_0.set.pairs();
                                    assert forall|j: int| 0 <= j < nps.len() implies #[trigger] heap_ordered(
                                        nps[j].1,
                                    ) && rank_of(nps[j].1) < s.rank by {
                                        if j > 0 {
                                            assert(nps[j] == ps[i + j]);
                                            assert(heap_ordered(ps[i + j].1));
                                        }
                                    }
                                }
                            }
                            proof {
                                lemma_unzip_ranks(*t, *key, l, rr);
                            }
                            (l, rr)
                        },
                    }
                },
            }
        },
    }
}



/// The entries of a node whose leftmost left subtree is replaced by `z`.
proof fn lemma_entries_leftmost<S: NonemptySet>(old: GTree<S>, new: GTree<S>, z: GTree<S>)
    requires
        old is NonEmpty,
        new is NonEmpty,
        old->NonEmpty_0.set.wf(),
        new->NonEmpty_0.set.wf(),
        new->NonEmpty_0.set.pairs() == old->NonEmpty_0.set.pairs().update(
            0,
            (old->NonEmpty_0.set.pairs()[0].0, z),
        ),
        new->NonEmpty_0.right == old->NonEmpty_0.right,
        new->NonEmpty_0.rank == old->NonEmpty_0.rank,
    ensures
        ({
            let k = tree_entries(old->NonEmpty_0.set.pairs()[0].1).len() as int;
            &&& tree_entries(old) == tree_entries(old->NonEmpty_0.set.pairs()[0].1) + tree_entries(
                old,
            ).skip(k)
            &&& tree_entries(new) == tree_entries(z) + tree_entries(old).skip(k)
        }),
{
    let ps = old->NonEmpty_0.set.pairs();
    let nps = new->NonEmpty_0.set.pairs();
    old->NonEmpty_0.set.lemma_wf();
    let rk = old->NonEmpty_0.rank;
    lemma_entries_node(old);
    lemma_entries_node(new);
    lemma_flat_entries_first(ps, 0, rk);
    lemma_flat_entries_first(nps, 0, rk);
    assert(ps.take(0) =~= Seq::<(u64, GTree<S>)>::empty());
    assert(nps.take(0) =~= Seq::<(u64, GTree<S>)>::empty());
    assert(flat_entries(ps.take(0), rk) =~= Seq::<(u64, u8)>::empty());
    assert(nps.skip(1) =~= ps.skip(1));
    let rest = seq![(ps[0].0, rk)] + flat_entries(ps.skip(1), rk) + tree_entries(right_of(old));
    let k = tree_entries(ps[0].1).len() as int;
    assert(tree_entries(old) =~= tree_entries(ps[0].1) + rest);
    assert(tree_entries(old).skip(k) =~= rest);
    assert(tree_entries(new) =~= tree_entries(z) + rest);
}

/// The entries of the node fusing `l` and `r`, with `z` as the new leftmost subtree of
/// the pairs of `r`.
proof fn lemma_entries_fuse<S: NonemptySet>(l: GTree<S>, r: GTree<S>, new: GTree<S>, z: GTree<S>)
    requires
        l is NonEmpty,
        r is NonEmpty,
        new is NonEmpty,
        l->NonEmpty_0.set.wf(),
        r->NonEmpty_0.set.wf(),
        new->NonEmpty_0.set.wf(),
        new->NonEmpty_0.set.pairs() == l->NonEmpty_0.set.pairs() + (seq![
            (r->NonEmpty_0.set.pairs()[0].0, z),
        ] + r->NonEmpty_0.set.pairs().skip(1)),
        new->NonEmpty_0.right == r->NonEmpty_0.right,
        new->NonEmpty_0.rank == l->NonEmpty_0.rank,
        l->NonEmpty_0.rank == r->NonEmpty_0.rank,
    ensures
        ({
            let k = tree_entries(r->NonEmpty_0.set.pairs()[0].1).len() as int;
            let lf = flat_entries(l->NonEmpty_0.set.pairs(), l->NonEmpty_0.rank);
            &&& tree_entries(l) == lf + tree_entries(right_of(l))
            &&& tree_entries(r) == tree_entries(r->NonEmpty_0.set.pairs()[0].1) + tree_entries(
                r,
            ).skip(k)
            &&& tree_entries(new) == lf + tree_entries(z) + tree_entries(r).skip(k)
        }),
{
    let lps = l->NonEmpty_0.set.pairs();
    let rps = r->NonEmpty_0.set.pairs();
    let rk = l->NonEmpty_0.rank;
    r->NonEmpty_0.set.lemma_wf();
    lemma_entries_node(l);
    lemma_entries_node(r);
    lemma_entries_node(new);
    lemma_flat_entries_first(rps, 0, rk);
    assert(rps.take(0) =~= Seq::<(u64, GTree<S>)>::empty());
    assert(flat_entries(rps.take(0), rk) =~= Seq::<(u64, u8)>::empty());
    let m = (rps[0].0, z);
    lemma_flat_entries_concat(lps, seq![m] + rps.skip(1), rk);
    lemma_flat_entries_concat(seq![m], rps.skip(1), rk);
    lemma_flat_entries_one(m, rk);
    let rest = seq![(rps[0].0, rk)] + flat_entries(rps.skip(1), rk) + tree_entries(right_of(r));
    let k = tree_entries(rps[0].1).len() as int;
    assert(tree_entries(r) =~= tree_entries(rps[0].1) + rest);
    assert(tree_entries(r).skip(k) =~= rest);
    assert(tree_entries(new) =~= flat_entries(lps, rk) + tree_entries(z) + rest);
}

proof fn lemma_all_less_sub(a: Seq<u64>, b: Seq<u64>, a2: Seq<u64>, b2: Seq<u64>, da: int, db: int)
    requires
        all_less(a, b),
        0 <= da,
        da + a2.len() <= a.len(),
        0 <= db,
        db + b2.len() <= b.len(),
        forall|k: int| 0 <= k < a2.len() ==> a2[k] == #[trigger] a[da + k],
        forall|k: int| 0 <= k < b2.len() ==> b2[k] == #[trigger] b[db + k],
    ensures
        all_less(a2, b2),
{
    assert forall|x: int, y: int| 0 <= x < a2.len() && 0 <= y < b2.len() implies a2[x] < b2[y] by {
        assert(a2[x] == a[da + x]);
        assert(b2[y] == b[db + y]);
    }
}

/// Merges two trees whose items are ordered: every item of `left` is below every item
/// of `right`.
#[verifier::rlimit(100)]
#[verifier::spinoff_prover]
pub fn zip2<S: NonemptySet>(left: &GTree<S>, right: &GTree<S>) -> (r: GTree<S>)
    requires
        valid(*left),
        valid(*right),
        all_less(tree_seq(*left), tree_seq(*right)),
    ensures
        valid(r),
        tree_seq(r) == tree_seq(*left) + tree_seq(*right),
        tree_entries(r) == tree_entries(*left) + tree_entries(*right),
        rank_of(r) == if rank_of(*left) < rank_of(*right) {
            rank_of(*right)
        } else {
            rank_of(*left)
        },
        heap_ordered(*left) && heap_ordered(*right) ==> heap_ordered(r),
        left is Empty ==> r == *right,
        right is Empty ==> r == *left,
    decreases left, right,
{
    proof {
        lemma_sorted_concat(tree_seq(*left), tree_seq(*right));
    }
    match (left, right) {
        (GTree::Empty, _) => {
            assert(tree_seq(*left) + tree_seq(*right) =~= tree_seq(*right));
            assert(tree_entries(*left) + tree_entries(*right) =~= tree_entries(*right));
            right.clone()
        },
        (_, GTree::Empty) => {
            assert(tree_seq(*left) + tree_seq(*right) =~= tree_seq(*left));
            assert(tree_entries(*left) + tree_entries(*right) =~= tree_entries(*left));
            left.clone()
        },
        (GTree::NonEmpty(l), GTree::NonEmpty(r)) => {
            let ghost sl = tree_seq(*left);
            let ghost sr = tree_seq(*right);
            let ghost lps = l.set.pairs();
            let ghost rps = r.set.pairs();
            proof {
                lemma_node_valid(*left);
                lemma_node_valid(*right);
                lemma_node_at(*right, 0);
                assert(rps.take(0) =~= Seq::<(u64, GTree<S>)>::empty());
                assert(flat(rps.take(0)) =~= Seq::<u64>::empty());
                S::lemma_subtree_decreases(*right, 0);
                r.set.lemma_wf();
            }
            let ghost b = tree_seq(rps[0].1);
            let ghost m = rps[0].0;
            let ghost c = flat(rps.skip(1)) + right_seq(*right);
            assert(sr =~= b + seq![m] + c);
            if l.rank < r.rank {
                // Zip `left` into the leftmost subtree of `right`.
                let ((_, r_leftmost_subtree), _) = r.set.remove_min();
                proof {
                    lemma_all_less_sub(sl, sr, sl, b, 0, 0);
                }
                let zipped = zip2(left, &r_leftmost_subtree);
                let res = GTree::NonEmpty(update_leftmost(r, zipped));
                proof {
                    let nps = rps.update(0, (m, zipped));
                    lemma_entries_leftmost(*right, res, zipped);
                    assert(tree_entries(res) =~= tree_entries(*left) + tree_entries(*right));
                    lemma_node(res);
                    lemma_flat_first(nps, 0);
                    assert(nps.take(0) =~= Seq::<(u64, GTree<S>)>::empty());
                    assert(nps.skip(1) =~= rps.skip(1));
                    assert(tree_seq(res) =~= sl + sr);
                    assert forall|j: int| 0 <= j < nps.len() implies #[trigger] tree_wf(nps[j].1) by {
                        if j > 0 {
                            assert(nps[j] == rps[j]);
                        }
                    }
                    if heap_ordered(*left) && heap_ordered(*right) {
                        lemma_heap_node(*right);
                        lemma_heap_node(res);
                        assert(heap_ordered(rps[0].1));
                        assert forall|j: int| 0 <= j < nps.len() implies #[trigger] heap_ordered(
                            nps[j].1,
                        ) && rank_of(nps[j].1) < r.rank by {
                            if j > 0 {
                                assert(nps[j] == rps[j]);
                                assert(heap_ordered(rps[j].1));
                            }
                        }
                    }
                }
                res
            } else if l.rank > r.rank {
                // Zip `right` into the right subtree of `left`.
                proof {
                    lemma_all_less_sub(sl, sr, right_seq(*left), sr, flat(lps).len() as int, 0);
                }
                let zipped = zip2(&l.right, right);
                let res = GTree::NonEmpty(update_right(l, zipped));
                proof {
                    lemma_node(res);
                    assert(tree_seq(res) =~= sl + sr);
                    lemma_entries_node(*left);
                    lemma_entries_node(res);
                    assert(tree_entries(res) =~= tree_entries(*left) + tree_entries(*right));
                    if heap_ordered(*left) && heap_ordered(*right) {
                        lemma_heap_node(*left);
                        lemma_heap_node(res);
                    }
                }
                res
            } else {
                // Equal ranks: the two roots fuse, and the right subtree of `left` is zipped
                // into the leftmost subtree of `right`.
                let ((r_leftmost_item, r_leftmost_subtree), r_others) = r.set.remove_min();
                proof {
                    lemma_all_less_sub(sl, sr, right_seq(*left), b, flat(lps).len() as int, 0);
                    if r_others is NonEmpty {
                        r_others->NonEmpty_0.lemma_wf();
                        assert(set_pairs(r_others) =~= rps.skip(1));
                        assert(rps.skip(1)[0] == rps[1]);
                        assert(items_of(rps)[0] == rps[0].0 && items_of(rps)[1] == rps[1].0);
                    } else {
                        assert(rps.skip(1) =~= Seq::<(u64, GTree<S>)>::empty());
                    }
                }
                let zipped = zip2(&l.right, &r_leftmost_subtree);
                let right_set = r_others.insert_min((r_leftmost_item, zipped));
                proof {
                    l.set.lemma_wf();
                    assert(sl[flat(lps).len() - 1] == lps.last().0);
                    assert(sr[b.len() as int] == m);
                }
                let res = GTree::NonEmpty(
                    Rc::new(
                        GTreeNode {
                            rank: l.rank,
                            set: Rc::new(S::join(&*l.set, &right_set)),
                            right: r.right.clone(),
                        },
                    ),
                );
                proof {
                    let nps = res->NonEmpty_0.set.pairs();
                    assert(set_pairs(r_others) =~= rps.skip(1));
                    assert(nps =~= lps + (seq![(m, zipped)] + rps.skip(1)));
                    lemma_entries_fuse(*left, *right, res, zipped);
                    assert(tree_entries(res) =~= tree_entries(*left) + tree_entries(*right));
                    lemma_node(res);
                    lemma_flat_concat(lps, seq![(m, zipped)] + rps.skip(1));
                    lemma_flat_concat(seq![(m, zipped)], rps.skip(1));
                    lemma_flat_one((m, zipped));
                    assert(tree_seq(res) =~= sl + sr);
                    assert forall|j: int| 0 <= j < nps.len() implies #[trigger] tree_wf(nps[j].1) by {
                        if j < lps.len() {
                            assert(nps[j] == lps[j]);
                        } else if j > lps.len() {
                            assert(nps[j] == rps[j - lps.len()]);
                        }
                    }
                    if heap_ordered(*left) && heap_ordered(*right) {
                        lemma_heap_node(*left);
                        lemma_heap_node(*right);
                        lemma_heap_node(res);
                        assert(heap_ordered(rps[0].1));
                        assert forall|j: int| 0 <= j < nps.len() implies #[trigger] heap_ordered(
                            nps[j].1,
                        ) && rank_of(nps[j].1) < l.rank by {
                            if j < lps.len() {
                                assert(nps[j] == lps[j]);
                                assert(heap_ordered(lps[j].1));
                            } else if j > lps.len() {
                                assert(nps[j] == rps[j - lps.len()]);
                                assert(heap_ordered(rps[j - lps.len()].1));
                            }
                        }
                    }
                }
                res
            }
        },
    }
}

/// Merges `left`, a single-item node of rank `rank` holding `item`, and `right`.
pub fn zip3<S: NonemptySet>(left: &GTree<S>, item: u64, rank: u8, right: &GTree<S>) -> (r: GTree<
    S,
>)
    requires
        S::holds_items(),
        valid(*left),
        valid(*right),
        all_below(tree_seq(*left), item as int),
        all_above(tree_seq(*right), item as int),
    ensures
        valid(r),
        tree_seq(r) == tree_seq(*left) + seq![item] + tree_seq(*right),
        tree_entries(r) == tree_entries(*left) + seq![(item, rank)] + tree_entries(*right),
        heap_ordered(*left) && heap_ordered(*right) ==> heap_ordered(r),
{
    let mid = GTree::NonEmpty(
        Rc::new(
            GTreeNode { rank, set: Rc::new(S::singleton((item, GTree::Empty))), right: GTree::Empty },
        ),
    );
    proof {
        lemma_node(mid);
        lemma_flat_one((item, GTree::<S>::Empty));
        assert(tree_seq(mid) =~= seq![item]);
        lemma_entries_node(mid);
        lemma_flat_entries_one((item, GTree::<S>::Empty), rank);
        assert(tree_entries(mid) =~= seq![(item, rank)]);
        assert(tree_wf(mid->NonEmpty_0.set.pairs()[0].1));
        lemma_heap_node(mid);
        assert(heap_ordered(mid->NonEmpty_0.set.pairs()[0].1));
        assert(all_less(tree_seq(*left), tree_seq(mid)));
    }
    let lm = zip2(left, &mid);
    proof {
        assert forall|x: int, y: int|
            0 <= x < tree_seq(lm).len() && 0 <= y < tree_seq(*right).len() implies tree_seq(
            lm,
        )[x] < tree_seq(*right)[y] by {
            if x < tree_seq(*left).len() {
                assert(tree_seq(lm)[x] == tree_seq(*left)[x]);
            }
        }
    }
    zip2(&lm, right)
}

/// The set of items of a tree.
pub open spec fn tree_keys<S: NonemptySet>(t: GTree<S>) -> Set<u64> {
    tree_seq(t).to_set()
}


/// The items that have a rank are the items of the tree.
pub proof fn lemma_ranks_dom<S: NonemptySet>(t: GTree<S>)
    requires
        tree_wf(t),
    ensures
        ranks(t).dom() == tree_keys(t),
{
    lemma_entry_items(t);
    lemma_entry_map_dom(tree_entries(t));
}

/// An item above or below every item of a valid tree has no rank in it.
proof fn lemma_no_rank<S: NonemptySet>(t: GTree<S>, item: u64)
    requires
        tree_wf(t),
        all_below(tree_seq(t), item as int) || all_above(tree_seq(t), item as int),
    ensures
        !entry_map(tree_entries(t)).dom().contains(item),
{
    lemma_ranks_dom(t);
    if tree_seq(t).contains(item) {
        let k = choose|k: int| 0 <= k < tree_seq(t).len() && tree_seq(t)[k] == item;
        assert(tree_seq(t)[k] == item);
    }
}

/// Rank maps of the pieces around an item of `e`: its entry, if any, is replaced by `x`.
proof fn lemma_put_between(
    e: Seq<(u64, u8)>,
    el: Seq<(u64, u8)>,
    er: Seq<(u64, u8)>,
    key: u64,
    rank: u8,
)
    requires
        split_entries(e, el, er, key),
        !entry_map(el).dom().contains(key),
        !entry_map(er).dom().contains(key),
    ensures
        entry_map(el + seq![(key, rank)] + er) == entry_map(e).insert(key, rank),
        entry_map(el + er) == entry_map(e).remove(key),
{
    let one = seq![(key, rank)];
    lemma_entry_map_concat(el + one, er);
    lemma_entry_map_concat(el, one);
    lemma_entry_map_concat(el, er);
    assert(one.drop_last() =~= Seq::<(u64, u8)>::empty());
    assert(entry_map(Seq::<(u64, u8)>::empty()) == Map::<u64, u8>::empty());
    assert(entry_map(one.drop_last()) == Map::<u64, u8>::empty());
    assert(entry_map(one) =~= Map::<u64, u8>::empty().insert(key, rank));
    if e == el + er {
        assert(entry_map(el + one + er) =~= entry_map(e).insert(key, rank));
        assert(entry_map(el + er) =~= entry_map(e).remove(key));
    } else {
        let old = seq![(key, e[el.len() as int].1)];
        lemma_entry_map_concat(el + old, er);
        lemma_entry_map_concat(el, old);
        assert(old.drop_last() =~= Seq::<(u64, u8)>::empty());
        assert(entry_map(old.drop_last()) == Map::<u64, u8>::empty());
        assert(entry_map(old) =~= Map::<u64, u8>::empty().insert(key, e[el.len() as int].1));
        assert(entry_map(el + one + er) =~= entry_map(e).insert(key, rank));
        assert(entry_map(el + er) =~= entry_map(e).remove(key));
    }
}

/// In a heap-ordered tree no item ranks above the root, and the items of the root's rank
/// are exactly the items of the root: the rank map alone fixes the root's rank and items.
pub proof fn lemma_root_holds_top_rank<S: NonemptySet>(t: GTree<S>)
    requires
        tree_wf(t),
        heap_ordered(t),
    ensures
        forall|k: int| 0 <= k < tree_entries(t).len() ==> #[trigger] tree_entries(t)[k].1 <= rank_of(t),
        t is NonEmpty ==> forall|k: int|
            0 <= k < tree_entries(t).len() && #[trigger] tree_entries(t)[k].1 == rank_of(t)
                ==> items_of(t->NonEmpty_0.set.pairs()).contains(tree_entries(t)[k].0),
        t is NonEmpty ==> forall|j: int|
            0 <= j < t->NonEmpty_0.set.pairs().len() ==> #[trigger] tree_entries(t).contains(
                (t->NonEmpty_0.set.pairs()[j].0, t->NonEmpty_0.rank),
            ),
    decreases t, 1int,
{
    if t is NonEmpty {
        let ps = t->NonEmpty_0.set.pairs();
        let rk = t->NonEmpty_0.rank;
        lemma_node(t);
        lemma_heap_node(t);
        lemma_entries_node(t);
        lemma_flat_entry_ranks(t, ps.len() as int);
        assert(ps.take(ps.len() as int) =~= ps);
        lemma_root_holds_top_rank(right_of(t));
        let a = flat_entries(ps, rk);
        let b = tree_entries(right_of(t));
        assert forall|k: int| 0 <= k < tree_entries(t).len() implies #[trigger] tree_entries(t)[k].1
            <= rank_of(t) && (tree_entries(t)[k].1 == rank_of(t) ==> items_of(ps).contains(
            tree_entries(t)[k].0,
        )) by {
            if k < a.len() {
                assert(tree_entries(t)[k] == a[k]);
            } else {
                assert(tree_entries(t)[k] == b[k - a.len()]);
            }
        }
        assert forall|j: int| 0 <= j < ps.len() implies #[trigger] tree_entries(t).contains(
            (ps[j].0, rk),
        ) by {
            lemma_flat_entries_first(ps, j, rk);
            let pre = flat_entries(ps.take(j), rk) + tree_entries(ps[j].1);
            assert(a[pre.len() as int] == (ps[j].0, rk));
            assert(tree_entries(t)[pre.len() as int] == (ps[j].0, rk));
        }
    }
}

proof fn lemma_flat_entry_ranks<S: NonemptySet>(t: GTree<S>, i: int)
    requires
        t is NonEmpty,
        tree_wf(t),
        heap_ordered(t),
        0 <= i <= t->NonEmpty_0.set.pairs().len(),
    ensures
        ({
            let ps = t->NonEmpty_0.set.pairs();
            let rk = t->NonEmpty_0.rank;
            let f = flat_entries(ps.take(i), rk);
            forall|k: int|
                0 <= k < f.len() ==> #[trigger] f[k].1 < rk || (f[k].1 == rk && items_of(
                    ps,
                ).contains(f[k].0))
        }),
    decreases t, 0int, i,
{
    let ps = t->NonEmpty_0.set.pairs();
    let rk = t->NonEmpty_0.rank;
    lemma_node(t);
    lemma_heap_node(t);
    if i == 0 {
        assert(ps.take(0) =~= Seq::<(u64, GTree<S>)>::empty());
    } else {
        lemma_flat_entry_ranks(t, i - 1);
        S::lemma_subtree_decreases(t, i - 1);
        assert(tree_wf(ps[i - 1].1));
        assert(heap_ordered(ps[i - 1].1));
        lemma_root_holds_top_rank(ps[i - 1].1);
        assert(ps.take(i).drop_last() =~= ps.take(i - 1));
        assert(ps.take(i).last() == ps[i - 1]);
        let f0 = flat_entries(ps.take(i - 1), rk);
        let e = tree_entries(ps[i - 1].1);
        let f = flat_entries(ps.take(i), rk);
        assert(f == f0 + e + seq![(ps[i - 1].0, rk)]);
        assert forall|k: int| 0 <= k < f.len() implies #[trigger] f[k].1 < rk || (f[k].1 == rk
            && items_of(ps).contains(f[k].0)) by {
            if k < f0.len() {
                assert(f[k] == f0[k]);
            } else if k < f0.len() + e.len() {
                assert(f[k] == e[k - f0.len()]);
            } else {
                assert(items_of(ps)[i - 1] == ps[i - 1].0);
            }
        }
    }
}

/// With distinct items, the rank map gives each entry its own rank.
pub proof fn lemma_entry_map_at(es: Seq<(u64, u8)>, k: int)
    requires
        strictly_ascending(entry_items(es)),
        0 <= k < es.len(),
    ensures
        entry_map(es).contains_key(es[k].0),
        entry_map(es)[es[k].0] == es[k].1,
    decreases es.len(),
{
    let n = es.len() - 1;
    if k < n {
        let d = es.drop_last();
        assert(entry_items(d) =~= entry_items(es).drop_last());
        assert(entry_items(es)[k] < entry_items(es)[n]);
        lemma_entry_map_at(d, k);
        assert(d[k] == es[k]);
    }
}

/// Two strictly ascending sequences with the same elements are equal.
pub proof fn lemma_ascending_same_elements(a: Seq<u64>, b: Seq<u64>)
    requires
        strictly_ascending(a),
        strictly_ascending(b),
        forall|x: u64| a.contains(x) <==> b.contains(x),
    ensures
        a == b,
    decreases a.len() + b.len(),
{
    if a.len() > 0 && b.len() > 0 {
        let (x, y) = (a.last(), b.last());
        assert(a.contains(x));
        assert(b.contains(y));
        let i = choose|i: int| 0 <= i < b.len() && b[i] == x;
        let j = choose|j: int| 0 <= j < a.len() && a[j] == y;
        assert(x == y) by {
            if x < y {
                assert(a[j] <= a[a.len() - 1]);
            } else if y < x {
                assert(b[i] <= b[b.len() - 1]);
            }
        }
        let (a0, b0) = (a.drop_last(), b.drop_last());
        assert forall|z: u64| a0.contains(z) <==> b0.contains(z) by {
            if a0.contains(z) {
                let p = choose|p: int| 0 <= p < a0.len() && a0[p] == z;
                assert(a[p] == z && z < x);
                assert(a.contains(z));
                assert(b.contains(z));
                let q = choose|q: int| 0 <= q < b.len() && b[q] == z;
                assert(b[b.len() - 1] == y);
                assert(x == y);
                assert(z != b[b.len() - 1]);
                assert(q != b.len() - 1);
                assert(b0[q] == z);
            }
            if b0.contains(z) {
                let p = choose|p: int| 0 <= p < b0.len() && b0[p] == z;
                assert(b[p] == z && z < y);
                assert(b.contains(z));
                assert(a.contains(z));
                let q = choose|q: int| 0 <= q < a.len() && a[q] == z;
                assert(a[a.len() - 1] == x);
                assert(q != a.len() - 1);
                assert(a0[q] == z);
            }
        }
        lemma_ascending_same_elements(a0, b0);
        assert(a =~= a0.push(x));
        assert(b =~= b0.push(y));
    } else if a.len() > 0 {
        assert(a.contains(a[0]));
    } else if b.len() > 0 {
        assert(b.contains(b[0]));
    } else {
        assert(a =~= b);
    }
}

/// Two valid, heap-ordered trees with the same rank map agree at the root: both are
/// empty, or their roots have the same rank and the same items.
pub proof fn lemma_roots_agree<S: NonemptySet>(t1: GTree<S>, t2: GTree<S>)
    requires
        valid(t1),
        valid(t2),
        heap_ordered(t1),
        heap_ordered(t2),
        ranks(t1) == ranks(t2),
    ensures
        t1 is Empty <==> t2 is Empty,
        t1 is NonEmpty ==> rank_of(t1) == rank_of(t2) && items_of(t1->NonEmpty_0.set.pairs())
            == items_of(t2->NonEmpty_0.set.pairs()),
{
    lemma_ranks_dom(t1);
    lemma_ranks_dom(t2);
    lemma_entry_items(t1);
    lemma_entry_items(t2);
    lemma_root_holds_top_rank(t1);
    lemma_root_holds_top_rank(t2);
    if t1 is NonEmpty {
        lemma_root_rank_below(t1, t2);
        lemma_root_rank_below(t2, t1);
        let i1 = items_of(t1->NonEmpty_0.set.pairs());
        let i2 = items_of(t2->NonEmpty_0.set.pairs());
        t1->NonEmpty_0.set.lemma_wf();
        t2->NonEmpty_0.set.lemma_wf();
        lemma_root_items_within(t1, t2);
        lemma_root_items_within(t2, t1);
        lemma_ascending_same_elements(i1, i2);
    } else if t2 is NonEmpty {
        lemma_node(t2);
        t2->NonEmpty_0.set.lemma_wf();
        lemma_flat_last(t2->NonEmpty_0.set.pairs());
        let x = tree_seq(t2)[0];
        assert(tree_seq(t2).contains(x));
        assert(tree_keys(t2).contains(x));
        assert(ranks(t2).dom().contains(x));
        assert(tree_seq(t1) =~= Seq::<u64>::empty());
        assert(!tree_keys(t1).contains(x));
    }
}

/// The root rank of `a` is at most the root rank of `b`, when both have the same ranks.
proof fn lemma_root_rank_below<S: NonemptySet>(a: GTree<S>, b: GTree<S>)
    requires
        valid(a),
        valid(b),
        heap_ordered(a),
        heap_ordered(b),
        ranks(a) == ranks(b),
        a is NonEmpty,
    ensures
        b is NonEmpty,
        rank_of(a) <= rank_of(b),
{
    let pa = a->NonEmpty_0.set.pairs();
    a->NonEmpty_0.set.lemma_wf();
    lemma_root_holds_top_rank(a);
    lemma_root_holds_top_rank(b);
    lemma_entry_items(a);
    lemma_entry_items(b);
    let ea = tree_entries(a);
    let eb = tree_entries(b);
    let e = (pa[0].0, a->NonEmpty_0.rank);
    assert(ea.contains(e));
    let k = choose|k: int| 0 <= k < ea.len() && ea[k] == e;
    lemma_entry_map_at(ea, k);
    lemma_entry_map_dom(eb);
    assert(entry_items(eb).to_set().contains(e.0));
    let m = choose|m: int| 0 <= m < entry_items(eb).len() && entry_items(eb)[m] == e.0;
    lemma_entry_map_at(eb, m);
    assert(eb[m].1 == e.1);
    assert(eb[m].1 <= rank_of(b));
}

/// Every item of the root of `a` is an item of the root of `b`, when both have the same
/// ranks and the same root rank.
proof fn lemma_root_items_within<S: NonemptySet>(a: GTree<S>, b: GTree<S>)
    requires
        valid(a),
        valid(b),
        heap_ordered(a),
        heap_ordered(b),
        ranks(a) == ranks(b),
        a is NonEmpty,
        b is NonEmpty,
        rank_of(a) == rank_of(b),
    ensures
        forall|x: u64|
            items_of(a->NonEmpty_0.set.pairs()).contains(x) ==> items_of(
                b->NonEmpty_0.set.pairs(),
            ).contains(x),
{
    let pa = a->NonEmpty_0.set.pairs();
    lemma_root_holds_top_rank(a);
    lemma_root_holds_top_rank(b);
    lemma_entry_items(a);
    lemma_entry_items(b);
    lemma_entry_map_dom(tree_entries(b));
    assert forall|x: u64| items_of(pa).contains(x) implies items_of(
        b->NonEmpty_0.set.pairs(),
    ).contains(x) by {
        let j = choose|j: int| 0 <= j < items_of(pa).len() && items_of(pa)[j] == x;
        let ea = tree_entries(a);
        let eb = tree_entries(b);
        assert(ea.contains((pa[j].0, a->NonEmpty_0.rank)));
        let k = choose|k: int| 0 <= k < ea.len() && ea[k] == (pa[j].0, a->NonEmpty_0.rank);
        lemma_entry_map_at(ea, k);
        assert(entry_items(eb).to_set().contains(x));
        let m = choose|m: int| 0 <= m < entry_items(eb).len() && entry_items(eb)[m] == x;
        lemma_entry_map_at(eb, m);
        assert(eb[m].1 == rank_of(b));
    }
}

/// The two trees have the same shape: node for node the same rank and the same items,
/// with the same-shaped subtrees below.
pub open spec fn same_tree<S: NonemptySet>(t1: GTree<S>, t2: GTree<S>) -> bool
    decreases t1, 1int,
{
    match (t1, t2) {
        (GTree::Empty, GTree::Empty) => true,
        (GTree::NonEmpty(a), GTree::NonEmpty(b)) => {
            &&& a.rank == b.rank
            &&& items_of(a.set.pairs()) == items_of(b.set.pairs())
            &&& pairs_same(t1, t2, a.set.pairs().len() as int)
            &&& same_tree(a.right, b.right)
        },
        _ => false,
    }
}

pub open spec fn pairs_same<S: NonemptySet>(t1: GTree<S>, t2: GTree<S>, i: int) -> bool
    decreases t1, 0int, i,
    via pairs_same_decreases::<S>
{
    if t1 is Empty || t2 is Empty || !t1->NonEmpty_0.set.wf() || i <= 0 || i
        > t1->NonEmpty_0.set.pairs().len() || i > t2->NonEmpty_0.set.pairs().len() {
        true
    } else {
        pairs_same(t1, t2, i - 1) && same_tree(
            t1->NonEmpty_0.set.pairs()[i - 1].1,
            t2->NonEmpty_0.set.pairs()[i - 1].1,
        )
    }
}

#[via_fn]
proof fn pairs_same_decreases<S: NonemptySet>(t1: GTree<S>, t2: GTree<S>, i: int) {
    if !(t1 is Empty || t2 is Empty || !t1->NonEmpty_0.set.wf() || i <= 0 || i
        > t1->NonEmpty_0.set.pairs().len() || i > t2->NonEmpty_0.set.pairs().len()) {
        S::lemma_subtree_decreases(t1, i - 1);
    }
}

/// The items strictly between `lo` (none when `None`) and `hi` (none when `None`).
pub open spec fn between(lo: Option<u64>, hi: Option<u64>) -> Set<u64> {
    Set::new(
        |x: u64|
            (lo is None || lo->Some_0 < x) && (hi is None || x < hi->Some_0),
    )
}

/// Restricting the rank map of `a + b + c` to a set that holds the items of `b` and none
/// of `a` or `c` gives the rank map of `b`.
proof fn lemma_entry_map_restrict(
    a: Seq<(u64, u8)>,
    b: Seq<(u64, u8)>,
    c: Seq<(u64, u8)>,
    keep: Set<u64>,
)
    requires
        forall|k: int| 0 <= k < a.len() ==> !keep.contains(#[trigger] a[k].0),
        forall|k: int| 0 <= k < b.len() ==> keep.contains(#[trigger] b[k].0),
        forall|k: int| 0 <= k < c.len() ==> !keep.contains(#[trigger] c[k].0),
    ensures
        entry_map(a + b + c).restrict(keep) == entry_map(b),
{
    lemma_entry_map_concat(a + b, c);
    lemma_entry_map_concat(a, b);
    lemma_entry_map_dom(a);
    lemma_entry_map_dom(b);
    lemma_entry_map_dom(c);
    assert forall|x: u64| entry_map(a).dom().contains(x) implies !keep.contains(x) by {
        assert(entry_items(a).to_set().contains(x));
        let k = choose|k: int| 0 <= k < entry_items(a).len() && entry_items(a)[k] == x;
        assert(a[k].0 == x);
    }
    assert forall|x: u64| entry_map(c).dom().contains(x) implies !keep.contains(x) by {
        assert(entry_items(c).to_set().contains(x));
        let k = choose|k: int| 0 <= k < entry_items(c).len() && entry_items(c)[k] == x;
        assert(c[k].0 == x);
    }
    assert forall|x: u64| entry_map(b).dom().contains(x) implies keep.contains(x) by {
        assert(entry_items(b).to_set().contains(x));
        let k = choose|k: int| 0 <= k < entry_items(b).len() && entry_items(b)[k] == x;
        assert(b[k].0 == x);
    }
    assert(entry_map(a + b + c).restrict(keep) =~= entry_map(b));
}

/// The rank map of the `i`-th left subtree of a valid node is the node's rank map cut to
/// the items between the neighbouring items.
proof fn lemma_ranks_left<S: NonemptySet>(t: GTree<S>, i: int)
    requires
        t is NonEmpty,
        valid(t),
        0 <= i < t->NonEmpty_0.set.pairs().len(),
    ensures
        ({
            let ps = t->NonEmpty_0.set.pairs();
            let lo = if i == 0 {
                None
            } else {
                Some(ps[i - 1].0)
            };
            ranks(ps[i].1) == ranks(t).restrict(between(lo, Some(ps[i].0)))
        }),
{
    let ps = t->NonEmpty_0.set.pairs();
    let rk = t->NonEmpty_0.rank;
    let lo = if i == 0 {
        None
    } else {
        Some(ps[i - 1].0)
    };
    let keep = between(lo, Some(ps[i].0));
    lemma_node_at(t, i);
    lemma_entries_node(t);
    lemma_flat_entries_first(ps, i, rk);
    lemma_flat_entry_items(t, i);
    lemma_entry_items(ps[i].1);
    lemma_entry_items(right_of(t));
    let ea = flat_entries(ps.take(i), rk);
    let eb = tree_entries(ps[i].1);
    let ec = seq![(ps[i].0, rk)] + flat_entries(ps.skip(i + 1), rk) + tree_entries(right_of(t));
    assert(tree_entries(t) =~= ea + eb + ec);
    let sa = flat(ps.take(i));
    let sb = tree_seq(ps[i].1);
    let sc = flat(ps.skip(i + 1)) + tree_seq(right_of(t));
    assert forall|k: int| 0 <= k < ea.len() implies !keep.contains(#[trigger] ea[k].0) by {
        assert(entry_items(ea)[k] == ea[k].0);
        assert(sa[k] <= ps[i - 1].0);
    }
    assert forall|k: int| 0 <= k < eb.len() implies keep.contains(#[trigger] eb[k].0) by {
        assert(entry_items(eb)[k] == eb[k].0);
        assert(sb[k] < ps[i].0);
        if i > 0 {
            assert(sa.len() > 0);
            assert(sa[sa.len() - 1] < sb[k]);
        }
    }
    lemma_node_valid(t);
    assert forall|j: int| 0 <= j < ps.skip(i + 1).len() implies #[trigger] tree_wf(
        ps.skip(i + 1)[j].1,
    ) by {
        assert(ps.skip(i + 1)[j] == ps[i + 1 + j]);
    }
    lemma_flat_entry_items_seq(ps.skip(i + 1), rk);
    assert(entry_items(ec) =~= seq![ps[i].0] + sc);
    assert forall|k: int| 0 <= k < ec.len() implies !keep.contains(#[trigger] ec[k].0) by {
        assert(entry_items(ec)[k] == ec[k].0);
        if k > 0 {
            assert((seq![ps[i].0] + sc)[k] == sc[k - 1]);
        }
    }
    lemma_entry_map_restrict(ea, eb, ec, keep);
}

/// The rank map of the right subtree of a valid node is the node's rank map cut to the
/// items above the node's items.
proof fn lemma_ranks_right<S: NonemptySet>(t: GTree<S>)
    requires
        t is NonEmpty,
        valid(t),
    ensures
        ranks(right_of(t)) == ranks(t).restrict(
            between(Some(t->NonEmpty_0.set.pairs().last().0), None),
        ),
{
    let ps = t->NonEmpty_0.set.pairs();
    let rk = t->NonEmpty_0.rank;
    let keep = between(Some(ps.last().0), None);
    lemma_node_valid(t);
    lemma_entries_node(t);
    lemma_flat_entry_items(t, ps.len() as int);
    assert(ps.take(ps.len() as int) =~= ps);
    lemma_entry_items(right_of(t));
    let ea = flat_entries(ps, rk);
    let eb = tree_entries(right_of(t));
    assert(tree_entries(t) =~= ea + eb + Seq::<(u64, u8)>::empty());
    assert forall|k: int| 0 <= k < ea.len() implies !keep.contains(#[trigger] ea[k].0) by {
        assert(entry_items(ea)[k] == ea[k].0);
        assert(flat(ps)[k] <= ps.last().0);
    }
    assert forall|k: int| 0 <= k < eb.len() implies keep.contains(#[trigger] eb[k].0) by {
        assert(entry_items(eb)[k] == eb[k].0);
    }
    lemma_entry_map_restrict(ea, eb, Seq::<(u64, u8)>::empty(), keep);
}

/// The items of the entries of pairs of a valid node are their in-order items.
proof fn lemma_flat_entry_items_seq<S: NonemptySet>(ps: Seq<(u64, GTree<S>)>, rk: u8)
    requires
        forall|j: int| 0 <= j < ps.len() ==> #[trigger] tree_wf(ps[j].1),
    ensures
        entry_items(flat_entries(ps, rk)) == flat(ps),
    decreases ps.len(),
{
    if ps.len() > 0 {
        lemma_flat_entry_items_seq(ps.drop_last(), rk);
        assert(tree_wf(ps.last().1));
        lemma_entry_items(ps.last().1);
        assert(entry_items(flat_entries(ps, rk)) =~= flat(ps));
    } else {
        assert(entry_items(flat_entries(ps, rk)) =~= flat(ps));
    }
}

/// History independence: valid, heap-ordered trees with the same rank map have the
/// same shape, whatever sequence of operations built them.
pub proof fn lemma_same_ranks_same_tree<S: NonemptySet>(t1: GTree<S>, t2: GTree<S>)
    requires
        valid(t1),
        valid(t2),
        heap_ordered(t1),
        heap_ordered(t2),
        ranks(t1) == ranks(t2),
    ensures
        same_tree(t1, t2),
    decreases t1, 1int,
{
    lemma_roots_agree(t1, t2);
    if t1 is NonEmpty {
        let ps1 = t1->NonEmpty_0.set.pairs();
        let ps2 = t2->NonEmpty_0.set.pairs();
        assert(ps1.len() == items_of(ps1).len());
        assert(ps2.len() == items_of(ps2).len());
        assert forall|j: int| 0 <= j < ps1.len() implies ps1[j].0 == ps2[j].0 by {
            assert(items_of(ps1)[j] == ps1[j].0);
            assert(items_of(ps2)[j] == ps2[j].0);
        }
        lemma_pairs_same(t1, t2, ps1.len() as int);
        lemma_node_valid(t1);
        lemma_node_valid(t2);
        lemma_heap_node(t1);
        lemma_heap_node(t2);
        lemma_ranks_right(t1);
        lemma_ranks_right(t2);
        assert(ps1.last().0 == ps2.last().0);
        lemma_same_ranks_same_tree(right_of(t1), right_of(t2));
    }
}

proof fn lemma_pairs_same<S: NonemptySet>(t1: GTree<S>, t2: GTree<S>, i: int)
    requires
        valid(t1),
        valid(t2),
        heap_ordered(t1),
        heap_ordered(t2),
        ranks(t1) == ranks(t2),
        t1 is NonEmpty,
        t2 is NonEmpty,
        t1->NonEmpty_0.set.pairs().len() == t2->NonEmpty_0.set.pairs().len(),
        forall|j: int|
            0 <= j < t1->NonEmpty_0.set.pairs().len() ==> #[trigger] t1->NonEmpty_0.set.pairs()[j].0
                == t2->NonEmpty_0.set.pairs()[j].0,
        0 <= i <= t1->NonEmpty_0.set.pairs().len(),
    ensures
        pairs_same(t1, t2, i),
    decreases t1, 0int, i,
{
    if i > 0 {
        let ps1 = t1->NonEmpty_0.set.pairs();
        let ps2 = t2->NonEmpty_0.set.pairs();
        lemma_pairs_same(t1, t2, i - 1);
        lemma_node_valid(t1);
        lemma_node_valid(t2);
        lemma_heap_node(t1);
        lemma_heap_node(t2);
        S::lemma_subtree_decreases(t1, i - 1);
        lemma_ranks_left(t1, i - 1);
        lemma_ranks_left(t2, i - 1);
        assert(ps1[i - 1].0 == ps2[i - 1].0);
        if i > 1 {
            assert(ps1[i - 2].0 == ps2[i - 2].0);
        }
        lemma_node_at(t1, i - 1);
        lemma_node_at(t2, i - 1);
        assert(heap_ordered(ps1[i - 1].1));
        assert(heap_ordered(ps2[i - 1].1));
        lemma_same_ranks_same_tree(ps1[i - 1].1, ps2[i - 1].1);
    }
}

/// Inserting an absent item and then deleting it gives back a tree of the same shape:
/// `grown` stands for `insert(t, item, rank)` and `back` for `delete(grown, item)`, as
/// their contracts describe them.
pub proof fn lemma_insert_delete_inverse<S: NonemptySet>(
    t: GTree<S>,
    item: u64,
    rank: u8,
    grown: GTree<S>,
    back: GTree<S>,
)
    requires
        valid(t),
        heap_ordered(t),
        !tree_keys(t).contains(item),
        valid(grown),
        heap_ordered(grown),
        ranks(grown) == ranks(t).insert(item, rank),
        valid(back),
        heap_ordered(back),
        ranks(back) == ranks(grown).remove(item),
    ensures
        same_tree(back, t),
{
    lemma_ranks_dom(t);
    assert(ranks(t).insert(item, rank).remove(item) =~= ranks(t));
    lemma_same_ranks_same_tree(back, t);
}

/// Inserting an item again with the rank it already has gives a tree of the same shape:
/// `again` stands for `insert(t, item, rank)`.
pub proof fn lemma_reinsert_same_rank<S: NonemptySet>(t: GTree<S>, item: u64, rank: u8, again: GTree<S>)
    requires
        valid(t),
        heap_ordered(t),
        ranks(t).contains_key(item),
        ranks(t)[item] == rank,
        valid(again),
        heap_ordered(again),
        ranks(again) == ranks(t).insert(item, rank),
    ensures
        same_tree(again, t),
{
    assert(ranks(t).insert(item, rank) =~= ranks(t));
    lemma_same_ranks_same_tree(again, t);
}

/// Inserts `item` with rank `rank`.
pub fn insert<S: NonemptySet>(t: &GTree<S>, item: u64, rank: u8) -> (r: GTree<S>)
    requires
        S::holds_items(),
        valid(*t),
    ensures
        valid(r),
        tree_keys(r) == tree_keys(*t).insert(item),
        ranks(r) == ranks(*t).insert(item, rank),
        heap_ordered(*t) ==> heap_ordered(r),
{
    let (left, right) = unzip(t, &item);
    let zipped = zip3(&left, item, rank, &right);
    proof {
        lemma_no_rank(left, item);
        lemma_no_rank(right, item);
        lemma_put_between(tree_entries(*t), tree_entries(left), tree_entries(right), item, rank);
        let a = tree_seq(left);
        let b = tree_seq(right);
        if tree_seq(*t) == a + b {
            assert(tree_seq(zipped).to_set() =~= tree_seq(*t).to_set().insert(item)) by {
                assert forall|x: u64| tree_seq(zipped).contains(x) implies tree_seq(*t).to_set().insert(item).contains(x) by {
                    let k = choose|k: int| 0 <= k < tree_seq(zipped).len() && tree_seq(zipped)[k] == x;
                    if k < a.len() {
                        assert(tree_seq(*t)[k] == x);
                    } else if k > a.len() {
                        assert(tree_seq(*t)[k - 1] == x);
                    }
                }
                assert forall|x: u64| tree_seq(*t).to_set().insert(item).contains(x) implies tree_seq(zipped).contains(x) by {
                    if x == item {
                        assert(tree_seq(zipped)[a.len() as int] == x);
                    } else {
                        let k = choose|k: int| 0 <= k < tree_seq(*t).len() && tree_seq(*t)[k] == x;
                        if k < a.len() {
                            assert(tree_seq(zipped)[k] == x);
                        } else {
                            assert(tree_seq(zipped)[k + 1] == x);
                        }
                    }
                }
            }
        } else {
            assert(tree_seq(zipped) =~= tree_seq(*t));
            assert(tree_seq(*t)[a.len() as int] == item);
            assert(tree_seq(*t).to_set().insert(item) =~= tree_seq(*t).to_set());
        }
    }
    zipped
}

/// Removes `item`, if present.
pub fn delete<S: NonemptySet>(t: &GTree<S>, item: &u64) -> (r: GTree<S>)
    requires
        valid(*t),
    ensures
        valid(r),
        tree_keys(r) == tree_keys(*t).remove(*item),
        ranks(r) == ranks(*t).remove(*item),
        heap_ordered(*t) ==> heap_ordered(r),
        !tree_keys(*t).contains(*item) ==> r == *t,
{
    // An absent key leaves the tree as it is.
    let present = has(t, item);
    if !present {
        assert(tree_keys(*t).remove(*item) =~= tree_keys(*t));
        proof {
            lemma_ranks_dom(*t);
            assert(ranks(*t).remove(*item) =~= ranks(*t));
        }
        return t.clone();
    }
    let (left, right) = unzip(t, item);
    proof {
        lemma_no_rank(left, *item);
        lemma_no_rank(right, *item);
        lemma_put_between(tree_entries(*t), tree_entries(left), tree_entries(right), *item, 0);
        lemma_sorted_concat(tree_seq(left), tree_seq(right));
        assert forall|x: int, y: int| 0 <= x < tree_seq(left).len() && 0 <= y < tree_seq(right).len() implies tree_seq(left)[x] < tree_seq(right)[y] by {
        }
    }
    let zipped = zip2(&left, &right);
    proof {
        let a = tree_seq(left);
        let b = tree_seq(right);
        assert(!(a + b).contains(*item)) by {
            if (a + b).contains(*item) {
                let k = choose|k: int| 0 <= k < (a + b).len() && (a + b)[k] == *item;
                if k < a.len() {
                    assert(a[k] == *item);
                } else {
                    assert(b[k - a.len()] == *item);
                }
            }
        }
        assert forall|x: u64| tree_seq(zipped).contains(x) <==> tree_seq(*t).to_set().remove(*item).contains(x) by {
            if tree_seq(*t) == a + b {
            } else {
                let s = tree_seq(*t);
                if tree_seq(zipped).contains(x) {
                    let k = choose|k: int| 0 <= k < (a + b).len() && (a + b)[k] == x;
                    if k < a.len() {
                        assert(s[k] == x);
                    } else {
                        assert(s[k + 1] == x);
                    }
                }
                if s.contains(x) && x != *item {
                    let k = choose|k: int| 0 <= k < s.len() && s[k] == x;
                    if k < a.len() {
                        assert((a + b)[k] == x);
                    } else if k > a.len() {
                        assert((a + b)[k - 1] == x);
                    }
                }
            }
        }
        assert(tree_keys(zipped) =~= tree_keys(*t).remove(*item));
    }
    zipped
}


/// `r` is the least element of `s` that is at least `key`, or `None` when there is none.
pub open spec fn is_successor(s: Seq<u64>, key: u64, r: Option<u64>) -> bool {
    match r {
        None => forall|k: int| 0 <= k < s.len() ==> s[k] < key,
        Some(v) => s.contains(v) && key <= v && forall|k: int|
            0 <= k < s.len() && key <= s[k] ==> v <= s[k],
    }
}

proof fn lemma_successor_after(a: Seq<u64>, b: Seq<u64>, key: u64, r: Option<u64>)
    requires
        all_below(a, key as int),
        is_successor(b, key, r),
    ensures
        is_successor(a + b, key, r),
{
    let s = a + b;
    assert forall|k: int| 0 <= k < s.len() && key <= s[k] implies k >= a.len() && s[k] == b[k - a.len()] by {
    }
    if let Some(v) = r {
        let j = choose|j: int| 0 <= j < b.len() && b[j] == v;
        assert(s[a.len() + j] == v);
    }
}

proof fn lemma_successor_before(a: Seq<u64>, b: Seq<u64>, d: Seq<u64>, key: u64, v: u64)
    requires
        all_below(a, key as int),
        is_successor(b, key, Some(v)),
        all_above(d, v as int),
    ensures
        is_successor(a + b + d, key, Some(v)),
{
    lemma_successor_after(a, b, key, Some(v));
    let s = a + b + d;
    let j = choose|j: int| 0 <= j < (a + b).len() && (a + b)[j] == v;
    assert(s[j] == v);
    assert forall|k: int| 0 <= k < s.len() && key <= s[k] implies v <= s[k] by {
        if k < (a + b).len() {
            assert(s[k] == (a + b)[k]);
        } else {
            assert(s[k] == d[k - (a + b).len()]);
        }
    }
}

proof fn lemma_successor_at(a: Seq<u64>, b: Seq<u64>, x: u64, c: Seq<u64>, key: u64)
    requires
        all_below(a, key as int),
        all_below(b, key as int),
        key <= x,
        all_above(c, x as int),
    ensures
        is_successor(a + b + seq![x] + c, key, Some(x)),
{
    let s = a + b + seq![x] + c;
    assert(s[(a.len() + b.len()) as int] == x);
    assert forall|k: int| 0 <= k < s.len() && key <= s[k] implies x <= s[k] by {
        if k < a.len() {
            assert(s[k] == a[k]);
        } else if k < a.len() + b.len() {
            assert(s[k] == b[k - a.len()]);
        } else if k > a.len() + b.len() {
            assert(s[k] == c[k - a.len() - b.len() - 1]);
        }
    }
}

/// Whether `key` is an item of the tree.
pub fn has<S: NonemptySet>(t: &GTree<S>, key: &u64) -> (r: bool)
    requires
        valid(*t),
    ensures
        r == tree_keys(*t).contains(*key),
    decreases t,
{
    match t {
        GTree::Empty => {
            assert(!tree_seq(*t).contains(*key));
            false
        },
        GTree::NonEmpty(node) => {
            proof {
                lemma_node_valid(*t);
            }
            let ghost ps = node.set.pairs();
            match node.set.search(key) {
                None => {
                    proof {
                        assert(all_below(flat(ps), *key as int)) by {
                            assert(ps[ps.len() - 1].0 < *key);
                        }
                        assert(all_above(Seq::<u64>::empty(), *key as int));
                        assert(tree_seq(*t) =~= flat(ps) + right_seq(*t) + Seq::<u64>::empty());
                        lemma_contains_mid(flat(ps), right_seq(*t), Seq::<u64>::empty(), *key);
                    }
                    has(&node.right, key)
                },
                Some(yay) => {
                    let ghost i = choose|i: int|
                        0 <= i < ps.len() && #[trigger] ps[i] == yay && yay.0 >= *key && (i == 0
                            || ps[i - 1].0 < *key);
                    proof {
                        lemma_node_at(*t, i);
                        S::lemma_subtree_decreases(*t, i);
                    }
                    let ghost a = flat(ps.take(i));
                    let ghost b = tree_seq(ps[i].1);
                    let ghost c = flat(ps.skip(i + 1)) + right_seq(*t);
                    if yay.0 == *key {
                        assert(tree_seq(*t)[(a.len() + b.len()) as int] == *key);
                        true
                    } else {
                        proof {
                            assert(all_above(seq![yay.0] + c, *key as int)) by {
                                assert forall|k: int| 0 <= k < (seq![yay.0] + c).len() implies (
                                seq![yay.0] + c)[k] > *key by {
                                    if k > 0 {
                                        assert((seq![yay.0] + c)[k] == c[k - 1]);
                                    }
                                }
                            }
                            assert(tree_seq(*t) =~= a + b + (seq![yay.0] + c));
                            lemma_contains_mid(a, b, seq![yay.0] + c, *key);
                        }
                        has(&yay.1, key)
                    }
                },
            }
        },
    }
}

/// The least item of the tree that is greater than or equal to `key`, if any.
pub fn search<S: NonemptySet>(t: &GTree<S>, key: &u64) -> (r: Option<u64>)
    requires
        valid(*t),
    ensures
        is_successor(tree_seq(*t), *key, r),
    decreases t,
{
    match t {
        GTree::Empty => None,
        GTree::NonEmpty(node) => {
            proof {
                lemma_node_valid(*t);
            }
            let ghost ps = node.set.pairs();
            match node.set.search(key) {
                None => {
                    let r = search(&node.right, key);
                    proof {
                        assert(all_below(flat(ps), *key as int)) by {
                            assert(ps[ps.len() - 1].0 < *key);
                        }
                        lemma_successor_after(flat(ps), right_seq(*t), *key, r);
                    }
                    r
                },
                Some(found) => {
                    let ghost i = choose|i: int|
                        0 <= i < ps.len() && #[trigger] ps[i] == found && found.0 >= *key && (i
                            == 0 || ps[i - 1].0 < *key);
                    proof {
                        lemma_node_at(*t, i);
                        S::lemma_subtree_decreases(*t, i);
                    }
                    let ghost a = flat(ps.take(i));
                    let ghost b = tree_seq(ps[i].1);
                    let ghost c = flat(ps.skip(i + 1)) + right_seq(*t);
                    if found.0 == *key {
                        proof {
                            lemma_successor_at(a, b, found.0, c, *key);
                        }
                        Some(found.0)
                    } else {
                        let r = search(&found.1, key);
                        match r {
                            None => {
                                proof {
                                    lemma_successor_at(a, b, found.0, c, *key);
                                }
                                Some(found.0)
                            },
                            Some(v) => {
                                proof {
                                    let j = choose|j: int| 0 <= j < b.len() && b[j] == v;
                                    assert(v < found.0);
                                    assert(all_above(seq![found.0] + c, v as int)) by {
                                        assert forall|k: int|
                                            0 <= k < (seq![found.0] + c).len() implies (seq![
                                            found.0,
                                        ] + c)[k] > v by {
                                            if k > 0 {
                                                assert((seq![found.0] + c)[k] == c[k - 1]);
                                            }
                                        }
                                    }
                                    lemma_successor_before(a, b, seq![found.0] + c, *key, v);
                                    assert(tree_seq(*t) =~= a + b + (seq![found.0] + c));
                                }
                                r
                            },
                        }
                    }
                },
            }
        },
    }
}


/// Whether two sets hold the same items in the same order.
pub fn sets_assert_eq<S1: NonemptySetMeta, S2: NonemptySetMeta>(s1: &S1, s2: &S2) -> (r: bool)
    requires
        s1.wf(),
        s2.wf(),
        s1.pairs().len() <= usize::MAX,
        s2.pairs().len() <= usize::MAX,
    ensures
        r == (items_of(s1.pairs()) == items_of(s2.pairs())),
{
    let len = s1.len();
    if len != s2.len() {
        assert(items_of(s1.pairs()).len() != items_of(s2.pairs()).len());
        return false;
    }
    let mut i: usize = 0;
    while i < len
        invariant
            s1.wf(),
            s2.wf(),
            s1.pairs().len() <= usize::MAX,
            s2.pairs().len() <= usize::MAX,
            len == s1.pairs().len(),
            len == s2.pairs().len(),
            0 <= i <= len,
            forall|j: int| 0 <= j < i ==> s1.pairs()[j].0 == s2.pairs()[j].0,
        decreases len - i,
    {
        let a = s1.get_by_index(i);
        let b = s2.get_by_index(i);
        match (a, b) {
            (Some(x), Some(y)) => {
                if *x != *y {
                    assert(items_of(s1.pairs())[i as int] != items_of(s2.pairs())[i as int]);
                    return false;
                }
            },
            _ => {
                return false;
            },
        }
        i = i + 1;
    }
    assert(items_of(s1.pairs()) =~= items_of(s2.pairs()));
    true
}

/// Whether two possibly empty sets hold the same items in the same order.
pub fn possibly_empty_sets_assert_eq<S1: NonemptySetMeta, S2: NonemptySetMeta>(
    s1: &SetOrEmpty<S1>,
    s2: &SetOrEmpty<S2>,
) -> (r: bool)
    requires
        set_wf(*s1),
        set_wf(*s2),
        set_pairs(*s1).len() <= usize::MAX,
        set_pairs(*s2).len() <= usize::MAX,
    ensures
        r == (items_of(set_pairs(*s1)) == items_of(set_pairs(*s2))),
{
    match (s1, s2) {
        (SetOrEmpty::Empty, SetOrEmpty::Empty) => {
            assert(items_of(set_pairs(*s1)) =~= items_of(set_pairs(*s2)));
            true
        },
        (SetOrEmpty::NonEmpty(a), SetOrEmpty::NonEmpty(b)) => sets_assert_eq(a, b),
        (SetOrEmpty::NonEmpty(a), SetOrEmpty::Empty) => {
            proof {
                a.lemma_wf();
            }
            assert(items_of(set_pairs(*s1)).len() != items_of(set_pairs(*s2)).len());
            false
        },
        (SetOrEmpty::Empty, SetOrEmpty::NonEmpty(b)) => {
            proof {
                b.lemma_wf();
            }
            assert(items_of(set_pairs(*s1)).len() != items_of(set_pairs(*s2)).len());
            false
        },
    }
}

} // verus!
