use vstd::prelude::*;

use crate::gtree::{
    GTree, NonemptySet, NonemptySetMeta, SetOrEmpty, ascending_of, descending, items_of, mid_pairs,
};
use crate::klist::{rev, strictly_descending};

verus! {

/// A reference inner set: its pairs in a vector, by descending item.
#[derive(Debug, PartialEq, Eq)]
pub struct ControlSet(pub Vec<(u64, GTree<ControlSet>)>);

/// Slots `lo..hi` of `v`.
fn copy_pairs(v: &Vec<(u64, GTree<ControlSet>)>, lo: usize, hi: usize) -> (r: Vec<
    (u64, GTree<ControlSet>),
>)
    requires
        lo <= hi <= v@.len(),
    ensures
        r@ == v@.subrange(lo as int, hi as int),
{
    let mut r: Vec<(u64, GTree<ControlSet>)> = Vec::new();
    let mut i: usize = lo;
    while i < hi
        invariant
            lo <= i <= hi <= v@.len(),
            r@ == v@.subrange(lo as int, i as int),
        decreases hi - i,
    {
        r.push((v[i].0, v[i].1.clone()));
        i = i + 1;
        assert(r@ =~= v@.subrange(lo as int, i as int));
    }
    r
}

// Binary search in a vector of descending items. `Ok(i)`: slot `i` holds `key`.
// `Err(i)`: the first `i` slots hold the items greater than `key`.
fn descending_search(v: &Vec<(u64, GTree<ControlSet>)>, key: &u64) -> (r: Result<usize, usize>)
    requires
        strictly_descending(v@),
    ensures
        match r {
            Ok(i) => i < v@.len() && v@[i as int].0 == *key,
            Err(i) => {
                &&& i <= v@.len()
                &&& forall|j: int| 0 <= j < i ==> #[trigger] v@[j].0 > *key
                &&& forall|j: int| i <= j < v@.len() ==> #[trigger] v@[j].0 < *key
            },
        },
{
    let mut lo: usize = 0;
    let mut hi: usize = v.len();
    while lo < hi
        invariant
            0 <= lo <= hi <= v@.len(),
            strictly_descending(v@),
            forall|j: int| 0 <= j < lo ==> #[trigger] v@[j].0 > *key,
            forall|j: int| hi <= j < v@.len() ==> #[trigger] v@[j].0 < *key,
        decreases hi - lo,
    {
        let mid = lo + (hi - lo) / 2;
        if *key < v[mid].0 {
            lo = mid + 1;
        } else if *key > v[mid].0 {
            hi = mid;
        } else {
            return Ok(mid);
        }
    }
    Err(lo)
}

fn from_vec(v: Vec<(u64, GTree<ControlSet>)>) -> (r: SetOrEmpty<ControlSet>)
    ensures
        v@.len() == 0 ==> r is Empty,
        v@.len() > 0 ==> r == SetOrEmpty::NonEmpty(ControlSet(v)),
{
    if v.len() == 0 {
        SetOrEmpty::Empty
    } else {
        SetOrEmpty::NonEmpty(ControlSet(v))
    }
}

proof fn lemma_descending_sub(s: Seq<(u64, GTree<ControlSet>)>, lo: int, hi: int)
    requires
        strictly_descending(s),
        0 <= lo <= hi <= s.len(),
    ensures
        strictly_descending(s.subrange(lo, hi)),
{
    assert forall|i: int, j: int| 0 <= i < j < hi - lo implies s.subrange(lo, hi)[i].0 > s.subrange(
        lo,
        hi,
    )[j].0 by {
        assert(s.subrange(lo, hi)[i] == s[lo + i]);
        assert(s.subrange(lo, hi)[j] == s[lo + j]);
    }
}

impl NonemptySet for ControlSet {
    open spec fn pairs(&self) -> Seq<(u64, GTree<Self>)> {
        rev(self.0@)
    }

    open spec fn wf(&self) -> bool {
        self.0@.len() > 0 && strictly_descending(self.0@)
    }

    open spec fn holds_items() -> bool {
        true
    }

    proof fn lemma_wf(&self) {
        let it = items_of(self.pairs());
        assert forall|i: int, j: int| 0 <= i < j < it.len() implies it[i] < it[j] by {
            assert(it[i] == self.0@[self.0@.len() - 1 - i].0);
            assert(it[j] == self.0@[self.0@.len() - 1 - j].0);
        }
    }

    proof fn lemma_subtree_decreases(t: GTree<Self>, i: int) {
        let n = t->NonEmpty_0;
        let set = *n.set;
        let j = set.0@.len() - 1 - i;
        assert(decreases_to!(set.0 => set.0@[j]));
        assert(decreases_to!(t => n));
        assert(decreases_to!(n => n.set));
    }

    fn singleton(item: (u64, GTree<Self>)) -> (r: Self) {
        let mut v: Vec<(u64, GTree<Self>)> = Vec::new();
        v.push(item);
        let r = ControlSet(v);
        assert(r.pairs() =~= seq![item]);
        r
    }

    fn insert_min(&self, new_min: (u64, GTree<Self>)) -> (r: Self) {
        let mut v = copy_pairs(&self.0, 0, self.0.len());
        v.push(new_min);
        let r = ControlSet(v);
        proof {
            assert(self.0@.subrange(0, self.0@.len() as int) =~= self.0@);
            assert(self.pairs()[0] == self.0@.last());
            assert(r.pairs() =~= seq![new_min] + self.pairs());
        }
        r
    }

    fn remove_min(&self) -> (r: ((u64, GTree<Self>), SetOrEmpty<Self>)) {
        let mut v = copy_pairs(&self.0, 0, self.0.len());
        assert(v@ =~= self.0@);
        let popped = match v.pop() {
            Some(p) => p,
            None => unreached(),
        };
        proof {
            assert(self.pairs()[0] == self.0@.last());
            assert(v@ =~= self.0@.drop_last());
            lemma_descending_sub(self.0@, 0, v@.len() as int);
            assert(rev(v@) =~= self.pairs().skip(1));
        }
        (popped, from_vec(v))
    }

    fn split(&self, key: &u64) -> (r: (SetOrEmpty<Self>, Option<GTree<Self>>, SetOrEmpty<Self>)) {
        let ghost v = self.0@;
        let len = self.0.len();
        let (i, j, mid) = match descending_search(&self.0, key) {
            Ok(i) => (i, i + 1, Some(self.0[i].1.clone())),
            Err(i) => (i, i, None),
        };
        let right = copy_pairs(&self.0, 0, i);
        let left = copy_pairs(&self.0, j, len);
        proof {
            lemma_descending_sub(v, 0, i as int);
            lemma_descending_sub(v, j as int, len as int);
            let dl = v.subrange(j as int, len as int);
            let dr = v.subrange(0, i as int);
            let m = mid_pairs(*key, mid);
            assert(v =~= dr + m + dl);
            assert(rev(m) =~= m);
            assert(rev(dl) + m + rev(dr) =~= rev(v));
            assert forall|k: int| 0 <= k < rev(dl).len() implies #[trigger] rev(dl)[k].0 < *key by {
                assert(rev(dl)[k] == v[len - 1 - k]);
            }
            assert forall|k: int| 0 <= k < rev(dr).len() implies #[trigger] rev(dr)[k].0 > *key by {
                assert(rev(dr)[k] == v[i - 1 - k]);
            }
        }
        (from_vec(left), mid, from_vec(right))
    }

    fn join(left: &Self, right: &Self) -> (r: Self) {
        let mut v = copy_pairs(&right.0, 0, right.0.len());
        let mut i: usize = 0;
        while i < left.0.len()
            invariant
                0 <= i <= left.0@.len(),
                v@ == right.0@ + left.0@.subrange(0, i as int),
            decreases left.0@.len() - i,
        {
            v.push((left.0[i].0, left.0[i].1.clone()));
            i = i + 1;
            assert(v@ =~= right.0@ + left.0@.subrange(0, i as int));
        }
        let r = ControlSet(v);
        proof {
            assert(v@ =~= right.0@ + left.0@);
            assert(left.pairs().last() == left.0@[0]);
            assert(right.pairs()[0] == right.0@.last());
            assert forall|a: int, b: int| 0 <= a < b < v@.len() implies v@[a].0 > v@[b].0 by {
                let rl = right.0@.len() as int;
                if a < rl && b >= rl {
                    assert(v@[a].0 >= right.0@[rl - 1].0);
                    assert(left.0@[0].0 >= v@[b].0);
                }
            }
            assert(r.pairs() =~= left.pairs() + right.pairs());
        }
        r
    }

    fn search(&self, key: &u64) -> (r: Option<(u64, GTree<Self>)>) {
        let ghost v = self.0@;
        let ghost len = v.len();
        match descending_search(&self.0, key) {
            Ok(i) => {
                proof {
                    assert(self.pairs()[len - 1 - i] == v[i as int]);
                    if i + 1 < len {
                        assert(self.pairs()[len - 2 - i] == v[i + 1]);
                    }
                }
                Some((self.0[i].0, self.0[i].1.clone()))
            },
            Err(i) => {
                if i == 0 {
                    proof {
                        assert forall|k: int| 0 <= k < len implies self.pairs()[k].0 < *key by {
                            assert(self.pairs()[k] == v[len - 1 - k]);
                        }
                    }
                    None
                } else {
                    proof {
                        assert(self.pairs()[len - i] == v[i - 1]);
                        if i < len {
                            assert(self.pairs()[len - i - 1] == v[i as int]);
                        }
                    }
                    Some((self.0[i - 1].0, self.0[i - 1].1.clone()))
                }
            },
        }
    }
}

impl NonemptySetMeta for ControlSet {
    open spec fn slot_count(&self) -> nat {
        self.0@.len()
    }

    fn get_max(&self) -> (r: &u64) {
        &self.0[0].0
    }

    fn get_min(&self) -> (r: &u64) {
        &self.0[self.0.len() - 1].0
    }

    fn len(&self) -> (r: usize) {
        self.0.len()
    }

    fn get_pair_by_index(&self, index: usize) -> (r: Option<&(u64, GTree<Self>)>) {
        if index < self.0.len() {
            Some(&self.0[self.0.len() - (index + 1)])
        } else {
            None
        }
    }

    fn from_descending(items: &[u64]) -> (r: Self) {
        let mut v: Vec<(u64, GTree<Self>)> = Vec::new();
        let mut i: usize = 0;
        while i < items.len()
            invariant
                0 <= i <= items@.len(),
                v@.len() == i,
                forall|k: int| 0 <= k < i ==> #[trigger] v@[k] == (items@[k], GTree::<Self>::Empty),
            decreases items@.len() - i,
        {
            v.push((items[i], GTree::Empty));
            i = i + 1;
        }
        let r = ControlSet(v);
        assert(r.pairs() =~= ascending_of::<Self>(items@));
        r
    }

    fn item_slot_count(&self) -> (r: usize) {
        self.0.len()
    }
}

} // verus!
