use std::collections::BTreeMap;
use vstd::prelude::*;

use crate::gtree::{
    GTree, NonemptySet, NonemptySetMeta, flat, heap_ordered, items_of, lemma_flat_first,
    lemma_flat_last, lemma_heap_node, lemma_node, lemma_sorted_concat, rank_of, right_of,
    right_seq, strictly_ascending, tree_seq, tree_wf,
};

verus! {

broadcast use {vstd::laws_cmp::group_laws_cmp, vstd::std_specs::btree::group_btree_axioms};

/// Shape and content measures of a G-tree.
#[derive(Debug, PartialEq, Eq)]
pub struct Stats {
    /// Number of nodes on the longest root-to-leaf path; 0 for the empty tree.
    pub gnode_height: usize,
    pub gnode_count: usize,
    pub item_count: usize,
    pub item_slot_count: usize,
    /// Rank of the root; -1 for the empty tree.
    pub rank: i16,
    pub is_heap: bool,
    pub least_item: Option<u64>,
    pub greatest_item: Option<u64>,
    pub is_search_tree: bool,
}


/// True when the recursion over the first `i` pairs of the root of `t` has nothing to visit.
pub open spec fn no_pair<S: NonemptySet>(t: GTree<S>, i: int) -> bool {
    t is Empty || !t->NonEmpty_0.set.wf() || i <= 0 || i > t->NonEmpty_0.set.pairs().len()
}

pub open spec fn subtree_at<S: NonemptySet>(t: GTree<S>, i: int) -> GTree<S> {
    t->NonEmpty_0.set.pairs()[i].1
}

pub open spec fn root_len<S: NonemptySet>(t: GTree<S>) -> int {
    t->NonEmpty_0.set.pairs().len() as int
}

#[via_fn]
proof fn pairs_count_decreases<S: NonemptySet>(t: GTree<S>, i: int) {
    if !no_pair(t, i) {
        S::lemma_subtree_decreases(t, i - 1);
    }
}

#[via_fn]
proof fn pairs_height_decreases<S: NonemptySet>(t: GTree<S>, i: int) {
    if !no_pair(t, i) {
        S::lemma_subtree_decreases(t, i - 1);
    }
}

#[via_fn]
proof fn pairs_slots_decreases<S: NonemptySetMeta>(t: GTree<S>, i: int) {
    if !no_pair(t, i) {
        S::lemma_subtree_decreases(t, i - 1);
    }
}

#[via_fn]
proof fn pairs_heap_decreases<S: NonemptySetMeta>(t: GTree<S>, i: int) {
    if !no_pair(t, i) {
        S::lemma_subtree_decreases(t, i - 1);
    }
}


#[via_fn]
proof fn pairs_rank_decreases<S: NonemptySet>(t: GTree<S>, i: int, rk: u8) {
    if !no_pair(t, i) {
        S::lemma_subtree_decreases(t, i - 1);
    }
}

/// Number of nodes.
pub open spec fn node_count<S: NonemptySet>(t: GTree<S>) -> nat
    decreases t, 1int,
{
    match t {
        GTree::Empty => 0,
        GTree::NonEmpty(n) => 1 + pairs_node_count(t, root_len(t)) + node_count(n.right),
    }
}

pub open spec fn pairs_node_count<S: NonemptySet>(t: GTree<S>, i: int) -> nat
    decreases t, 0int, i,
    via pairs_count_decreases::<S>
{
    if no_pair(t, i) {
        0
    } else {
        pairs_node_count(t, i - 1) + node_count(subtree_at(t, i - 1))
    }
}

/// Number of nodes on the longest path from the root.
pub open spec fn tree_height<S: NonemptySet>(t: GTree<S>) -> nat
    decreases t, 1int,
{
    match t {
        GTree::Empty => 0,
        GTree::NonEmpty(n) => {
            let l = pairs_height(t, root_len(t));
            let r = tree_height(n.right);
            1 + if l < r {
                r
            } else {
                l
            }
        },
    }
}

pub open spec fn pairs_height<S: NonemptySet>(t: GTree<S>, i: int) -> nat
    decreases t, 0int, i,
    via pairs_height_decreases::<S>
{
    if no_pair(t, i) {
        0
    } else {
        let a = pairs_height(t, i - 1);
        let b = tree_height(subtree_at(t, i - 1));
        if a < b {
            b
        } else {
            a
        }
    }
}

/// Number of item slots allocated by all inner sets.
pub open spec fn tree_slots<S: NonemptySetMeta>(t: GTree<S>) -> nat
    decreases t, 1int,
{
    match t {
        GTree::Empty => 0,
        GTree::NonEmpty(n) => n.set.slot_count() + pairs_slots(t, root_len(t)) + tree_slots(
            n.right,
        ),
    }
}

pub open spec fn pairs_slots<S: NonemptySetMeta>(t: GTree<S>, i: int) -> nat
    decreases t, 0int, i,
    via pairs_slots_decreases::<S>
{
    if no_pair(t, i) {
        0
    } else {
        pairs_slots(t, i - 1) + tree_slots(subtree_at(t, i - 1))
    }
}

/// Heap order on ranks: every subtree hanging from a node, left or right, has a smaller
/// rank than the node, or the same rank when the node's set is at capacity.
pub open spec fn heap_ok<S: NonemptySetMeta>(t: GTree<S>) -> bool
    decreases t, 1int,
{
    match t {
        GTree::Empty => true,
        GTree::NonEmpty(n) => {
            &&& pairs_heap(t, root_len(t))
            &&& heap_ok(n.right)
            &&& rank_of(n.right) <= n.rank
            &&& rank_of(n.right) == n.rank ==> n.set.slot_count() <= n.set.pairs().len()
        },
    }
}

pub open spec fn pairs_heap<S: NonemptySetMeta>(t: GTree<S>, i: int) -> bool
    decreases t, 0int, i,
    via pairs_heap_decreases::<S>
{
    if no_pair(t, i) {
        true
    } else {
        &&& pairs_heap(t, i - 1)
        &&& heap_ok(subtree_at(t, i - 1))
        &&& rank_of(subtree_at(t, i - 1)) <= t->NonEmpty_0.rank
        &&& rank_of(subtree_at(t, i - 1)) == t->NonEmpty_0.rank
            ==> t->NonEmpty_0.set.slot_count() <= t->NonEmpty_0.set.pairs().len()
    }
}

/// Number of items held by nodes of rank `rk`.
pub open spec fn rank_items<S: NonemptySet>(t: GTree<S>, rk: u8) -> nat
    decreases t, 1int,
{
    match t {
        GTree::Empty => 0,
        GTree::NonEmpty(n) => (if n.rank == rk {
            n.set.pairs().len()
        } else {
            0
        }) + pairs_rank_items(t, root_len(t), rk) + rank_items(n.right, rk),
    }
}

pub open spec fn pairs_rank_items<S: NonemptySet>(t: GTree<S>, i: int, rk: u8) -> nat
    decreases t, 0int, i,
    via pairs_rank_decreases::<S>
{
    if no_pair(t, i) {
        0
    } else {
        pairs_rank_items(t, i - 1, rk) + rank_items(subtree_at(t, i - 1), rk)
    }
}

/// The count recorded for `rk`, 0 when absent.
pub open spec fn count_in(m: Map<u8, usize>, rk: u8) -> nat {
    if m.contains_key(rk) {
        m[rk] as nat
    } else {
        0
    }
}

/// The totals that `gtree_stats` computes fit in a `usize`.
pub open spec fn stats_fit<S: NonemptySetMeta>(t: GTree<S>) -> bool {
    &&& tree_seq(t).len() <= usize::MAX
    &&& node_count(t) <= usize::MAX
    &&& tree_height(t) <= usize::MAX
    &&& tree_slots(t) <= usize::MAX
}

/// `s` holds the measures of `t`.
pub open spec fn stats_of<S: NonemptySetMeta>(s: Stats, t: GTree<S>) -> bool {
    let q = tree_seq(t);
    &&& s.gnode_height == tree_height(t)
    &&& s.gnode_count == node_count(t)
    &&& s.item_count == q.len()
    &&& s.item_slot_count == tree_slots(t)
    &&& s.rank == rank_of(t)
    &&& s.is_heap == heap_ok(t)
    &&& s.least_item == (if q.len() > 0 {
        Some(q[0])
    } else {
        None
    })
    &&& s.greatest_item == (if q.len() > 0 {
        Some(q.last())
    } else {
        None
    })
    &&& s.is_search_tree == strictly_ascending(q)
}

proof fn lemma_partial_bounds<S: NonemptySetMeta>(t: GTree<S>, i: int, rk: u8)
    requires
        t is NonEmpty,
        t->NonEmpty_0.set.wf(),
        0 <= i <= root_len(t),
    ensures
        pairs_node_count(t, i) <= pairs_node_count(t, root_len(t)),
        pairs_height(t, i) <= pairs_height(t, root_len(t)),
        pairs_slots(t, i) <= pairs_slots(t, root_len(t)),
        pairs_rank_items(t, i, rk) <= pairs_rank_items(t, root_len(t), rk),
    decreases root_len(t) - i,
{
    if i < root_len(t) {
        lemma_partial_bounds(t, i + 1, rk);
    }
}

/// Sortedness of `a + b + [x]`, where `a` is sorted up to `prev`, checked locally.
proof fn lemma_sorted_step(a: Seq<u64>, b: Seq<u64>, x: u64, prev: Option<u64>)
    requires
        a.len() > 0 <==> prev is Some,
        prev is Some ==> a.last() == prev->Some_0 && prev->Some_0 < x,
    ensures
        strictly_ascending(a + b + seq![x]) <==> (strictly_ascending(a) && strictly_ascending(b)
            && (b.len() > 0 ==> b.last() < x) && (b.len() > 0 && prev is Some ==> b[0]
            > prev->Some_0)),
{
    lemma_sorted_concat(a + b, seq![x]);
    lemma_sorted_concat(a, b);
    lemma_sorted_concat(b, seq![x]);
    let s = a + b + seq![x];
    if strictly_ascending(s) {
        if b.len() > 0 {
            assert((a + b)[a.len() + b.len() - 1] == b.last());
            assert(seq![x][0] == x);
            assert((a + b)[a.len() + b.len() - 1] < seq![x][0]);
            assert(b.last() < x);
            assert(strictly_ascending(b + seq![x]));
        } else {
            assert(b + seq![x] =~= seq![x]);
        }
        if b.len() > 0 && prev is Some {
            assert(a[a.len() - 1] < b[0]);
        }
    }
    if strictly_ascending(a) && strictly_ascending(b) && (b.len() > 0 ==> b.last() < x) && (
    b.len() > 0 && prev is Some ==> b[0] > prev->Some_0) {
        assert forall|i: int, j: int| 0 <= i < a.len() && 0 <= j < b.len() implies a[i] < b[j] by {
            assert(a[i] <= a.last());
            assert(b[0] <= b[j]);
        }
        assert forall|i: int, j: int| 0 <= i < (a + b).len() && 0 <= j < 1 implies (a + b)[i]
            < seq![x][j] by {
            if i < a.len() {
                assert(a[i] <= a.last());
            } else {
                assert((a + b)[i] == b[i - a.len()]);
                assert(b[i - a.len()] <= b.last());
            }
        }
    }
    if strictly_ascending(s) && b.len() > 0 && prev is Some {
        assert(s[a.len() - 1] == a.last());
        assert(s[a.len() as int] == b[0]);
    }
}


/// The pairs of a set, by ascending item.
fn pairs_ascending<S: NonemptySetMeta>(s: &S) -> (r: Vec<&(u64, GTree<S>)>)
    requires
        s.wf(),
        s.pairs().len() <= usize::MAX,
    ensures
        r@.len() == s.pairs().len(),
        forall|i: int| 0 <= i < r@.len() ==> *#[trigger] r@[i] == s.pairs()[i],
{
    let mut ret: Vec<&(u64, GTree<S>)> = Vec::new();
    let n = s.len();
    let mut i: usize = 0;
    while i < n
        invariant
            s.wf(),
            s.pairs().len() <= usize::MAX,
            n == s.pairs().len(),
            0 <= i <= n,
            ret@.len() == i,
            forall|j: int| 0 <= j < i ==> *#[trigger] ret@[j] == s.pairs()[j],
        decreases n - i,
    {
        match s.get_pair_by_index(i) {
            Some(p) => ret.push(p),
            None => {},
        }
        i = i + 1;
    }
    ret
}

/// Computes the measures of `t` and adds, for each rank, the number of items held at
/// that rank to `rank_distribution`.
fn gtree_stats_<S: NonemptySetMeta>(t: &GTree<S>, rank_distribution: &mut BTreeMap<u8, usize>) -> (r:
    Stats)
    requires
        tree_wf(*t),
        stats_fit(*t),
        forall|rk: u8| count_in(old(rank_distribution)@, rk) + rank_items(*t, rk) <= usize::MAX,
    ensures
        stats_of(r, *t),
        forall|rk: u8|
            #![trigger count_in(final(rank_distribution)@, rk)]
            count_in(final(rank_distribution)@, rk) == count_in(old(rank_distribution)@, rk)
                + rank_items(*t, rk),
        forall|rk: u8|
            #![trigger final(rank_distribution)@.contains_key(rk)]
            final(rank_distribution)@.contains_key(rk) <==> (old(rank_distribution)@.contains_key(
                rk,
            ) || rank_items(*t, rk) > 0),
    decreases t,
{
    match t {
        GTree::Empty => Stats {
            gnode_height: 0,
            gnode_count: 0,
            item_count: 0,
            item_slot_count: 0,
            rank: -1,
            is_heap: true,
            least_item: None,
            greatest_item: None,
            is_search_tree: true,
        },
        GTree::NonEmpty(node) => {
            let ghost m0 = rank_distribution@;
            let ghost ps = node.set.pairs();
            let ghost len = ps.len() as int;
            proof {
                lemma_node(*t);
                node.set.lemma_wf();
                lemma_flat_len(ps);
                lemma_partial_bounds(*t, 0, 0);
            }
            let n = node.set.len();
            let set_slots = node.set.item_slot_count();
            let pairs = pairs_ascending(&*node.set);
            // Items at the rank of this node.
            match rank_distribution.get(&node.rank) {
                None => {
                    rank_distribution.insert(node.rank, n);
                },
                Some(prev) => {
                    let p = *prev;
                    assert(rank_items(*t, node.rank) >= n);
                    assert(count_in(m0, node.rank) == p);
                    rank_distribution.insert(node.rank, p + n);
                },
            };
            let mut height: usize = 0;
            let mut gnode_count: usize = 1;
            let mut item_count: usize = 0;
            let mut item_slot_count: usize = 0;
            let mut is_heap = true;
            let mut is_search_tree = true;
            let mut least_item: Option<u64> = None;
            let mut prev_item: Option<u64> = None;
            let mut i: usize = 0;
            while i < n
                invariant
                    t is NonEmpty,
                    *t == GTree::NonEmpty(*node),
                    node.set.wf(),
                    tree_wf(*t),
                    stats_fit(*t),
                    ps == node.set.pairs(),
                    ps == t->NonEmpty_0.set.pairs(),
                    t->NonEmpty_0.set.wf(),
                    node.set.pairs().len() == n,
                    set_slots == node.set.slot_count(),
                    pairs@.len() == n,
                    forall|j: int| 0 <= j < n ==> *#[trigger] pairs@[j] == ps[j],
                    len == n,
                    0 <= i <= n,
                    strictly_ascending(items_of(ps)),
                    tree_seq(*t) == flat(ps) + tree_seq(node.right),
                    forall|j: int| 0 <= j < len ==> #[trigger] tree_wf(ps[j].1),
                    forall|rk: u8| count_in(m0, rk) + rank_items(*t, rk) <= usize::MAX,
                    height == pairs_height(*t, i as int),
                    gnode_count == 1 + pairs_node_count(*t, i as int),
                    item_count == flat(ps.take(i as int)).len(),
                    item_slot_count == pairs_slots(*t, i as int),
                    is_heap == pairs_heap(*t, i as int),
                    is_search_tree == strictly_ascending(flat(ps.take(i as int))),
                    i == 0 ==> least_item is None && prev_item is None,
                    i > 0 ==> least_item == Some(flat(ps)[0]) && prev_item == Some(ps[i - 1].0),
                    forall|rk: u8|
                        #![trigger count_in(rank_distribution@, rk)]
                        count_in(rank_distribution@, rk) == count_in(m0, rk) + (if node.rank
                            == rk {
                            n as nat
                        } else {
                            0
                        }) + pairs_rank_items(*t, i as int, rk),
                    forall|rk: u8|
                        #![trigger rank_distribution@.contains_key(rk)]
                        rank_distribution@.contains_key(rk) <==> (m0.contains_key(rk) || node.rank
                            == rk || pairs_rank_items(*t, i as int, rk) > 0),
                decreases n - i,
            {
                let pair: &(u64, GTree<S>) = pairs[i];
                proof {
                    S::lemma_subtree_decreases(*t, i as int);
                    lemma_partial_bounds(*t, i as int + 1, 0);
                    lemma_flat_first(ps, i as int);
                    lemma_flat_first(ps.take(i as int + 1), i as int);
                    assert(ps.take(i as int + 1).take(i as int) =~= ps.take(i as int));
                    assert(ps.take(i as int + 1).skip(i as int + 1) =~= Seq::<(u64, GTree<S>)>::empty());
                    assert(flat(ps.take(i as int + 1).skip(i as int + 1)) =~= Seq::<u64>::empty());
                    assert(ps.take(i as int + 1)[i as int] == ps[i as int]);
                    assert(flat(ps.take(i as int + 1)) =~= flat(ps.take(i as int)) + tree_seq(
                        pair.1,
                    ) + seq![pair.0]);
                    assert forall|rk: u8| count_in(rank_distribution@, rk) + rank_items(pair.1, rk) <= usize::MAX by {
                        lemma_partial_bounds(*t, i as int + 1, rk);
                    }
                }
                let sub_stats = gtree_stats_(&pair.1, rank_distribution);
                if height < sub_stats.gnode_height {
                    height = sub_stats.gnode_height;
                }
                gnode_count = gnode_count + sub_stats.gnode_count;
                item_count = item_count + 1 + sub_stats.item_count;
                item_slot_count = item_slot_count + sub_stats.item_slot_count;
                if sub_stats.rank > node.rank as i16 {
                    is_heap = false;
                } else if sub_stats.rank == node.rank as i16 && set_slots > n {
                    is_heap = false;
                }
                if !sub_stats.is_heap {
                    is_heap = false;
                }
                // Search order: the left subtree lies between the previous item and this one.
                proof {
                    if i > 0 {
                        assert(items_of(ps)[i - 1] == ps[i - 1].0 && items_of(ps)[i as int]
                            == ps[i as int].0);
                        lemma_flat_last(ps.take(i as int));
                        assert(ps.take(i as int).last() == ps[i - 1]);
                    }
                    lemma_sorted_step(
                        flat(ps.take(i as int)),
                        tree_seq(pair.1),
                        pair.0,
                        prev_item,
                    );
                }
                if !sub_stats.is_search_tree {
                    is_search_tree = false;
                }
                match sub_stats.least_item {
                    Some(least) => {
                        match prev_item {
                            Some(p) => {
                                if least <= p {
                                    is_search_tree = false;
                                }
                            },
                            None => {},
                        }
                    },
                    None => {},
                }
                match sub_stats.greatest_item {
                    Some(greatest) => {
                        if greatest >= pair.0 {
                            is_search_tree = false;
                        }
                    },
                    None => {},
                }
                if i == 0 {
                    least_item = match sub_stats.least_item {
                        Some(least) => Some(least),
                        None => Some(pair.0),
                    };
                    proof {
                        assert(flat(ps)[0] == (flat(ps.take(0)) + tree_seq(pair.1) + seq![pair.0]
                            + flat(ps.skip(1)))[0]);
                        assert(flat(ps.take(0)) =~= Seq::<u64>::empty());
                    }
                }
                prev_item = Some(pair.0);
                i = i + 1;
            }
            let right_stats = gtree_stats_(&node.right, rank_distribution);
            let mut stats = Stats {
                gnode_height: 0,
                gnode_count: gnode_count + right_stats.gnode_count,
                item_count: item_count + right_stats.item_count,
                item_slot_count: 0,
                rank: node.rank as i16,
                is_heap,
                least_item,
                greatest_item: None,
                is_search_tree,
            };
            stats.gnode_height = 1 + if height < right_stats.gnode_height {
                right_stats.gnode_height
            } else {
                height
            };
            stats.item_slot_count = item_slot_count + set_slots
                + right_stats.item_slot_count;
            // Heap order towards the right subtree.
            if right_stats.rank > node.rank as i16 {
                stats.is_heap = false;
            } else if right_stats.rank == node.rank as i16 {
                if set_slots > n {
                    stats.is_heap = false;
                }
            }
            if !right_stats.is_heap {
                stats.is_heap = false;
            }
            // Search order towards the right subtree.
            if !right_stats.is_search_tree {
                stats.is_search_tree = false;
            }
            match right_stats.least_item {
                Some(least) => {
                    if least <= *node.set.get_max() {
                        stats.is_search_tree = false;
                    }
                },
                None => {},
            }
            stats.greatest_item = match right_stats.greatest_item {
                Some(greatest) => Some(greatest),
                None => Some(*node.set.get_max()),
            };
            proof {
                assert(ps.take(len) =~= ps);
                lemma_flat_last(ps);
                let a = flat(ps);
                let b = right_seq(*t);
                lemma_sorted_concat(a, b);
                if strictly_ascending(a) && strictly_ascending(b) && b.len() > 0 && b[0] > a.last() {
                    assert forall|x: int, y: int| 0 <= x < a.len() && 0 <= y < b.len() implies a[x] < b[y] by {
                        assert(a[x] <= a.last());
                        assert(b[0] <= b[y]);
                    }
                }
                if strictly_ascending(a + b) && b.len() > 0 {
                    assert((a + b)[a.len() - 1] == a.last());
                    assert((a + b)[a.len() as int] == b[0]);
                }
                assert((a + b)[0] == a[0]);
                if b.len() > 0 {
                    assert((a + b).last() == b.last());
                } else {
                    assert(a + b =~= a);
                }
            }
            stats
        },
    }
}

pub(crate) proof fn lemma_flat_len<S: NonemptySet>(ps: Seq<(u64, GTree<S>)>)
    ensures
        flat(ps).len() >= ps.len(),
        forall|i: int| 0 <= i <= ps.len() ==> #[trigger] flat(ps.take(i)).len() <= flat(ps).len(),
    decreases ps.len(),
{
    if ps.len() > 0 {
        lemma_flat_len(ps.drop_last());
        assert forall|i: int| 0 <= i <= ps.len() implies #[trigger] flat(ps.take(i)).len() <= flat(
            ps,
        ).len() by {
            if i < ps.len() {
                assert(ps.take(i) =~= ps.drop_last().take(i));
            } else {
                assert(ps.take(i) =~= ps);
            }
        }
    } else {
        assert(ps.take(0) =~= ps);
    }
}

/// The measures of `t`, and for each rank the number of items held at that rank.
pub fn gtree_stats<S: NonemptySetMeta>(t: &GTree<S>) -> (r: (Stats, BTreeMap<u8, usize>))
    requires
        tree_wf(*t),
        stats_fit(*t),
        forall|rk: u8| rank_items(*t, rk) <= usize::MAX,
    ensures
        stats_of(r.0, *t),
        forall|rk: u8| #[trigger] r.1@.contains_key(rk) <==> rank_items(*t, rk) > 0,
        forall|rk: u8| r.1@.contains_key(rk) ==> #[trigger] r.1@[rk] == rank_items(*t, rk),
{
    let mut ranks: BTreeMap<u8, usize> = BTreeMap::new();
    let stats = gtree_stats_(t, &mut ranks);
    proof {
        assert forall|rk: u8| ranks@.contains_key(rk) implies #[trigger] ranks@[rk] == rank_items(*t, rk) by {
            assert(count_in(ranks@, rk) == rank_items(*t, rk));
        }
    }
    (stats, ranks)
}


/// Heap order as `insert` and `delete` maintain it (every subtree ranks below its
/// node) implies the heap property that `gtree_stats` reports, which also admits a
/// right subtree of equal rank below an inner set at capacity.
pub proof fn lemma_heap_ordered_is_heap<S: NonemptySetMeta>(t: GTree<S>)
    requires
        tree_wf(t),
        heap_ordered(t),
    ensures
        heap_ok(t),
    decreases t, 1int,
{
    if t is NonEmpty {
        lemma_node(t);
        lemma_heap_node(t);
        lemma_pairs_heap_ok(t, root_len(t));
        lemma_heap_ordered_is_heap(right_of(t));
    }
}

proof fn lemma_pairs_heap_ok<S: NonemptySetMeta>(t: GTree<S>, i: int)
    requires
        t is NonEmpty,
        tree_wf(t),
        heap_ordered(t),
        0 <= i <= root_len(t),
    ensures
        pairs_heap(t, i),
    decreases t, 0int, i,
{
    if i > 0 {
        lemma_node(t);
        lemma_heap_node(t);
        lemma_pairs_heap_ok(t, i - 1);
        S::lemma_subtree_decreases(t, i - 1);
        assert(tree_wf(subtree_at(t, i - 1)));
        assert(heap_ordered(subtree_at(t, i - 1)));
        lemma_heap_ordered_is_heap(subtree_at(t, i - 1));
    }
}

} // verus!
