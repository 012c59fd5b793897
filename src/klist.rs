use std::rc::Rc;
use vstd::prelude::*;

use crate::gtree::{
    GTree, NonemptySet, NonemptySetMeta, SetOrEmpty, ascending_of, descending, items_of, tree_seq,
    tree_wf,
};
use crate::stats::{no_pair, root_len, subtree_at};

verus! {

/// An item with its left subtree, as stored in a k-list.
pub type KPair<const K: usize> = (u64, GTree<NonemptyReverseKList<K>>);

/// A non-empty k-list: a linked sequence of buckets of `K` slots each, holding its
/// items in descending order. Every bucket but the last is full, and the slots of the
/// last bucket are filled from slot 0 on.
#[derive(Debug, PartialEq, Eq)]
pub struct NonemptyReverseKList<const K: usize> {
    data: Vec<Option<KPair<K>>>,
    next: Option<Rc<NonemptyReverseKList<K>>>,
}

/// One past the index of the last occupied slot of a bucket.
pub open spec fn filled<T>(d: Seq<Option<T>>) -> int
    decreases d.len(),
{
    if d.len() == 0 {
        0
    } else if d.last() is Some {
        d.len() as int
    } else {
        filled(d.drop_last())
    }
}

/// The occupied prefix of a bucket.
pub open spec fn bucket_view<T>(d: Seq<Option<T>>) -> Seq<T> {
    Seq::new(filled(d) as nat, |i: int| d[i]->Some_0)
}

/// A bucket of `k` slots whose occupied slots form a non-empty prefix.
pub open spec fn bucket_wf<T>(d: Seq<Option<T>>, k: int) -> bool {
    &&& d.len() == k
    &&& filled(d) >= 1
    &&& forall|i: int| 0 <= i < filled(d) ==> #[trigger] d[i] is Some
}

pub open spec fn strictly_descending<T>(s: Seq<(u64, T)>) -> bool {
    forall|i: int, j: int| 0 <= i < j < s.len() ==> s[i].0 > s[j].0
}

/// The sequence in reverse order.
pub open spec fn rev<T>(s: Seq<T>) -> Seq<T> {
    Seq::new(s.len(), |i: int| s[s.len() - 1 - i])
}

proof fn lemma_filled<T>(d: Seq<Option<T>>)
    ensures
        0 <= filled(d) <= d.len(),
        forall|i: int| filled(d) <= i < d.len() ==> #[trigger] d[i] is None,
        filled(d) > 0 ==> d[filled(d) - 1] is Some,
    decreases d.len(),
{
    if d.len() > 0 && d.last() is None {
        lemma_filled(d.drop_last());
        assert forall|i: int| filled(d) <= i < d.len() implies #[trigger] d[i] is None by {
            if i < d.len() - 1 {
                assert(d[i] == d.drop_last()[i]);
            }
        }
    }
}

proof fn lemma_filled_eq<T>(d: Seq<Option<T>>, c: int)
    requires
        0 <= c <= d.len(),
        forall|i: int| 0 <= i < c ==> #[trigger] d[i] is Some,
        forall|i: int| c <= i < d.len() ==> #[trigger] d[i] is None,
    ensures
        filled(d) == c,
    decreases d.len(),
{
    if d.len() > 0 && d.last() is None {
        assert forall|i: int| 0 <= i < c implies #[trigger] d.drop_last()[i] is Some by {
            assert(d[i] is Some);
        }
        assert forall|i: int| c <= i < d.drop_last().len() implies #[trigger] d.drop_last()[i] is None by {
            assert(d[i] is None);
        }
        lemma_filled_eq(d.drop_last(), c);
    }
}

impl<const K: usize> NonemptyReverseKList<K> {
    /// The items with their left subtrees, in descending order.
    pub closed spec fn desc(&self) -> Seq<KPair<K>>
        decreases self,
    {
        match self.next {
            Some(n) => bucket_view(self.data@) + n.desc(),
            None => bucket_view(self.data@),
        }
    }

    spec fn next_list(&self) -> Self {
        *self.next->Some_0
    }

    /// The bucket structure: every bucket has `K` slots filled from slot 0 on, and every
    /// bucket that has a successor is full.
    pub closed spec fn shape(&self) -> bool
        decreases self,
    {
        &&& K > 0
        &&& bucket_wf(self.data@, K as int)
        &&& match self.next {
            Some(n) => filled(self.data@) == K && n.shape(),
            None => true,
        }
    }

    /// The k-list invariant: its bucket structure, and strictly descending items.
    pub closed spec fn inv(&self) -> bool {
        self.shape() && strictly_descending(self.desc())
    }

    proof fn lemma_desc_len(&self)
        requires
            self.shape(),
        ensures
            self.desc().len() >= filled(self.data@) >= 1,
            self.next is Some ==> self.desc().len() > K,
            self.next is None ==> self.desc().len() == filled(self.data@),
            forall|i: int| 0 <= i < filled(self.data@) ==> self.desc()[i] == #[trigger] self.data@[i]->Some_0,
        decreases self,
    {
        lemma_filled(self.data@);
        if let Some(n) = self.next {
            n.lemma_desc_len();
        }
    }

    proof fn lemma_desc_decreases(&self, j: int)
        requires
            self.shape(),
            0 <= j < self.desc().len(),
        ensures
            decreases_to!(*self => self.desc()[j].1),
        decreases self,
    {
        self.lemma_desc_len();
        if j < filled(self.data@) {
            let p = self.data@[j];
            assert(decreases_to!(self.data => self.data@[j]));
            assert(decreases_to!(p => p->Some_0));
            assert(decreases_to!(p->Some_0 => p->Some_0.1));
        } else {
            let n = self.next->Some_0;
            n.lemma_desc_decreases(j - filled(self.data@));
            assert(decreases_to!(self.next => n));
        }
    }
}


fn clone_slot<const K: usize>(s: &Option<KPair<K>>) -> (r: Option<KPair<K>>)
    ensures
        r == *s,
{
    match s {
        Some(p) => Some((p.0, p.1.clone())),
        None => None,
    }
}

/// A new bucket of `K` slots: slots `lo..hi` of `a`, then the first `m` slots of `b`,
/// then empty slots.
fn make_bucket<const K: usize>(
    a: &Vec<Option<KPair<K>>>,
    lo: usize,
    hi: usize,
    b: &Vec<Option<KPair<K>>>,
    m: usize,
) -> (r: Vec<Option<KPair<K>>>)
    requires
        lo <= hi <= a.len(),
        m <= b.len(),
        hi - lo + m <= K,
    ensures
        r@.len() == K,
        forall|i: int| 0 <= i < hi - lo ==> #[trigger] r@[i] == a@[lo + i],
        forall|i: int| hi - lo <= i < hi - lo + m ==> #[trigger] r@[i] == b@[i - (hi - lo)],
        forall|i: int| hi - lo + m <= i < K ==> #[trigger] r@[i] is None,
{
    let mut r: Vec<Option<KPair<K>>> = Vec::new();
    let mut i: usize = 0;
    let w: usize = hi - lo;
    while i < K
        invariant
            i <= K,
            w == hi - lo,
            lo <= hi <= a.len(),
            m <= b.len(),
            w + m <= K,
            r@.len() == i,
            forall|j: int| 0 <= j < i && j < w ==> #[trigger] r@[j] == a@[lo + j],
            forall|j: int| 0 <= j < i && w <= j < w + m ==> #[trigger] r@[j] == b@[j - w],
            forall|j: int| 0 <= j < i && w + m <= j ==> #[trigger] r@[j] is None,
        decreases K - i,
    {
        if i < w {
            r.push(clone_slot(&a[lo + i]));
        } else if i < w + m {
            r.push(clone_slot(&b[i - w]));
        } else {
            r.push(None);
        }
        i = i + 1;
    }
    r
}

impl<const K: usize> NonemptyReverseKList<K> {
    fn duplicate(&self) -> (r: Self)
        requires
            self.data@.len() == K,
        ensures
            r.data@ == self.data@,
            r.next == self.next,
    {
        let data = make_bucket(&self.data, 0, K, &self.data, 0);
        let next = match &self.next {
            Some(n) => Some(Rc::clone(n)),
            None => None,
        };
        assert(data@ =~= self.data@);
        NonemptyReverseKList { data, next }
    }

    proof fn lemma_same_view(a: Self, b: Self)
        requires
            a.data@ == b.data@,
            a.next == b.next,
        ensures
            a.desc() == b.desc(),
            a.shape() == b.shape(),
    {
    }

    // Removes the `n` greatest items, 1 <= n <= K. Returns a bucket holding the (up to `n`)
    // removed items, and the remaining list, if any item remains.
    fn remove_n_max(&self, n: usize) -> (r: (Vec<Option<KPair<K>>>, Option<Self>))
        requires
            self.shape(),
            1 <= n <= K,
        ensures
            r.0@.len() == K,
            forall|i: int|
                0 <= i < K ==> #[trigger] r.0@[i] == (if i < n && i < self.desc().len() {
                    Some(self.desc()[i])
                } else {
                    None
                }),
            match r.1 {
                None => self.desc().len() <= n,
                Some(l) => self.desc().len() > n && l.shape() && l.desc() == self.desc().skip(
                    n as int,
                ),
            },
        decreases self,
    {
        proof {
            self.lemma_desc_len();
            lemma_filled(self.data@);
        }
        let ghost f = filled(self.data@);
        if n == K {
            // Pop off the whole first bucket.
            let removed = make_bucket(&self.data, 0, K, &self.data, 0);
            let rest = match &self.next {
                None => None,
                Some(next) => {
                    assert(next.shape());
                    Some((**next).duplicate())
                },
            };
            proof {
                if rest is Some {
                    Self::lemma_same_view(rest->Some_0, self.next_list());
                    assert(self.desc().skip(n as int) =~= self.next_list().desc());
                }
            }
            (removed, rest)
        } else {
            let removed = make_bucket(&self.data, 0, n, &self.data, 0);
            match &self.next {
                None => {
                    // This is the last bucket: shift its remaining items to the front.
                    let new_data = make_bucket(&self.data, n, K, &self.data, 0);
                    match &new_data[0] {
                        None => {
                            proof {
                                assert(self.data@[n as int] is None);
                            }
                            (removed, None)
                        },
                        Some(_) => {
                            let l = NonemptyReverseKList { data: new_data, next: None };
                            proof {
                                lemma_filled_eq(new_data@, f - n);
                                assert(l.desc() =~= self.desc().skip(n as int));
                            }
                            (removed, Some(l))
                        },
                    }
                },
                Some(next) => {
                    // Refill the end of this bucket with the greatest items of the rest.
                    let (removed_rec, remaining_rec) = next.remove_n_max(n);
                    let new_data = make_bucket(&self.data, n, K, &removed_rec, n);
                    let ghost nd = next.desc();
                    let ghost m: int = if nd.len() < n { nd.len() as int } else { n as int };
                    proof {
                        next.lemma_desc_len();
                        assert forall|i: int| 0 <= i < K - n + m implies #[trigger] new_data@[i] is Some by {
                            if i >= K - n {
                                assert(removed_rec@[i - (K - n)] == Some(nd[i - (K - n)]));
                            }
                        }
                        assert forall|i: int| K - n + m <= i < K implies #[trigger] new_data@[i] is None by {
                            assert(removed_rec@[i - (K - n)] is None);
                        }
                        lemma_filled_eq(new_data@, K - n + m);
                    }
                    let l = NonemptyReverseKList {
                        data: new_data,
                        next: match remaining_rec {
                            None => None,
                            Some(rest) => Some(Rc::new(rest)),
                        },
                    };
                    proof {
                        assert forall|i: int| 0 <= i < K - n + m implies #[trigger] bucket_view(new_data@)[i]
                            == self.desc()[n + i] by {
                            if i >= K - n {
                                assert(removed_rec@[i - (K - n)] == Some(nd[i - (K - n)]));
                                assert(self.desc()[n + i] == nd[i - (K - n)]);
                            } else {
                                assert(self.desc()[n + i] == self.data@[n + i]->Some_0);
                            }
                        }
                        if remaining_rec is Some {
                            let rd = remaining_rec->Some_0.desc();
                            assert(m == n);
                            assert(l.desc() == bucket_view(new_data@) + rd);
                            assert(self.desc() == bucket_view(self.data@) + nd);
                            assert forall|i: int| K <= i < l.desc().len() implies l.desc()[i]
                                == self.desc()[n + i] by {
                                assert(l.desc()[i] == rd[i - K]);
                                assert(rd[i - K] == nd[n + i - K]);
                            }
                            assert(l.desc() =~= self.desc().skip(n as int));
                        } else {
                            assert(l.desc() =~= self.desc().skip(n as int));
                        }
                    }
                    (removed, Some(l))
                },
            }
        }
    }
}


/// The occupied slots of a bucket hold strictly descending items.
pub open spec fn bucket_descending<const K: usize>(d: Seq<Option<KPair<K>>>) -> bool {
    forall|i: int, j: int| 0 <= i < j < filled(d) ==> d[i]->Some_0.0 > d[j]->Some_0.0
}

// Binary search in a bucket whose items descend, with empty slots ordered after every
// item. `Ok(i)`: slot `i` holds `key`. `Err(i)`: the first `i` slots hold the items
// greater than `key`.
fn bucket_search<const K: usize>(d: &Vec<Option<KPair<K>>>, key: &u64) -> (r: Result<usize, usize>)
    requires
        d@.len() == K,
        forall|i: int| 0 <= i < filled(d@) ==> #[trigger] d@[i] is Some,
        bucket_descending(d@),
    ensures
        match r {
            Ok(i) => i < filled(d@) && d@[i as int]->Some_0.0 == *key,
            Err(i) => {
                &&& i <= filled(d@)
                &&& forall|j: int| 0 <= j < i ==> #[trigger] d@[j]->Some_0.0 > *key
                &&& i < filled(d@) ==> d@[i as int]->Some_0.0 < *key
            },
        },
{
    proof {
        lemma_filled(d@);
    }
    let mut lo: usize = 0;
    let mut hi: usize = K;
    while lo < hi
        invariant
            d@.len() == K,
            0 <= lo <= hi <= K,
            lo <= filled(d@),
            forall|i: int| 0 <= i < filled(d@) ==> #[trigger] d@[i] is Some,
            forall|i: int| filled(d@) <= i < K ==> #[trigger] d@[i] is None,
            bucket_descending(d@),
            forall|j: int| 0 <= j < lo ==> #[trigger] d@[j]->Some_0.0 > *key,
            forall|j: int| hi <= j < filled(d@) ==> #[trigger] d@[j]->Some_0.0 < *key,
        decreases hi - lo,
    {
        let mid = lo + (hi - lo) / 2;
        match &d[mid] {
            None => {
                hi = mid;
            },
            Some(p) => {
                if *key < p.0 {
                    lo = mid + 1;
                } else if *key > p.0 {
                    hi = mid;
                } else {
                    return Ok(mid);
                }
            },
        }
    }
    Err(lo)
}

impl<const K: usize> NonemptyReverseKList<K> {
    proof fn lemma_desc_pairs(&self)
        ensures
            self.desc() == rev(self.pairs()),
            self.pairs() == rev(self.desc()),
    {
        assert(rev(rev(self.desc())) =~= self.desc());
    }

    proof fn lemma_inv(&self)
        requires
            self.inv(),
        ensures
            self.desc().len() >= filled(self.data@) >= 1,
            self.next is Some ==> self.desc().len() > K,
            self.next is None ==> self.desc().len() == filled(self.data@),
            forall|i: int| 0 <= i < filled(self.data@) ==> self.desc()[i] == #[trigger] self.data@[i]->Some_0,
            forall|i: int| 0 <= i < filled(self.data@) ==> #[trigger] self.data@[i] is Some,
            forall|i: int| filled(self.data@) <= i < K ==> #[trigger] self.data@[i] is None,
            bucket_descending(self.data@),
            self.data@.len() == K,
            K > 0,
            self.next is Some ==> filled(self.data@) == K && self.next_list().inv(),
            self.next is Some ==> self.desc() == bucket_view(self.data@) + self.next_list().desc(),
            self.next is None ==> self.desc() == bucket_view(self.data@),
    {
        self.lemma_desc_len();
        lemma_filled(self.data@);
        assert forall|i: int, j: int| 0 <= i < j < filled(self.data@) implies self.data@[i]->Some_0.0
            > self.data@[j]->Some_0.0 by {
            assert(self.desc()[i] == self.data@[i]->Some_0);
            assert(self.desc()[j] == self.data@[j]->Some_0);
        }
        if self.next is Some {
            let nd = self.next_list().desc();
            let f = filled(self.data@);
            assert forall|i: int, j: int| 0 <= i < j < nd.len() implies nd[i].0 > nd[j].0 by {
                assert(self.desc()[f + i] == nd[i]);
                assert(self.desc()[f + j] == nd[j]);
            }
        }
    }
}


proof fn lemma_descending_concat<T>(a: Seq<(u64, T)>, b: Seq<(u64, T)>)
    requires
        strictly_descending(a),
        strictly_descending(b),
        a.len() > 0 && b.len() > 0 ==> a.last().0 > b[0].0,
    ensures
        strictly_descending(a + b),
{
    assert forall|i: int, j: int| 0 <= i < j < (a + b).len() implies (a + b)[i].0 > (a + b)[j].0 by {
        if i < a.len() && j >= a.len() {
            assert((a + b)[i].0 >= a.last().0);
            assert(b[0].0 >= (a + b)[j].0);
        }
    }
}

proof fn lemma_descending_sub<T>(s: Seq<(u64, T)>, lo: int, hi: int)
    requires
        strictly_descending(s),
        0 <= lo <= hi <= s.len(),
    ensures
        strictly_descending(s.subrange(lo, hi)),
{
    assert forall|i: int, j: int| 0 <= i < j < hi - lo implies s.subrange(lo, hi)[i].0 > s.subrange(
        lo,
        hi,
    )[j].0 by {
        assert(s.subrange(lo, hi)[i] == s[lo + i]);
        assert(s.subrange(lo, hi)[j] == s[lo + j]);
    }
}

/// The items of a possibly empty k-list, in descending order.
pub open spec fn opt_desc<const K: usize>(s: SetOrEmpty<NonemptyReverseKList<K>>) -> Seq<KPair<K>> {
    match s {
        SetOrEmpty::NonEmpty(l) => l.desc(),
        SetOrEmpty::Empty => seq![],
    }
}

pub open spec fn opt_inv<const K: usize>(s: SetOrEmpty<NonemptyReverseKList<K>>) -> bool {
    match s {
        SetOrEmpty::NonEmpty(l) => l.inv(),
        SetOrEmpty::Empty => true,
    }
}

impl<const K: usize> NonemptyReverseKList<K> {
    fn from_rest(rest: Option<Self>) -> (r: SetOrEmpty<Self>)
        ensures
            match rest {
                None => r is Empty,
                Some(l) => r == SetOrEmpty::NonEmpty(l),
            },
    {
        match rest {
            None => SetOrEmpty::Empty,
            Some(l) => SetOrEmpty::NonEmpty(l),
        }
    }


    // Splits at slot `i` of the first bucket: slots before `i` hold the items above `key`;
    // when `hit`, slot `i` holds `key` itself.
    fn split_at(&self, key: &u64, i: usize, hit: bool) -> (r: (
        SetOrEmpty<Self>,
        Option<GTree<Self>>,
        SetOrEmpty<Self>,
    ))
        requires
            self.inv(),
            i < K,
            hit ==> i < filled(self.data@) && self.desc()[i as int].0 == *key,
            !hit ==> 0 < i <= filled(self.data@),
            !hit && i < filled(self.data@) ==> self.desc()[i as int].0 < *key,
            forall|j: int| 0 <= j < i ==> #[trigger] self.desc()[j].0 > *key,
        ensures
            opt_inv(r.0),
            opt_inv(r.2),
            self.desc() == opt_desc(r.2) + crate::gtree::mid_pairs(*key, r.1) + opt_desc(r.0),
            forall|j: int| 0 <= j < opt_desc(r.0).len() ==> #[trigger] opt_desc(r.0)[j].0 < *key,
            forall|j: int| 0 <= j < opt_desc(r.2).len() ==> #[trigger] opt_desc(r.2)[j].0 > *key,
    {
        proof {
            self.lemma_inv();
        }
        let ghost d = self.desc();
        // The items above `key` form a new single bucket.
        let right = if i == 0 {
            SetOrEmpty::Empty
        } else {
            let r = NonemptyReverseKList {
                data: make_bucket(&self.data, 0, i, &self.data, 0),
                next: None,
            };
            proof {
                lemma_filled_eq(r.data@, i as int);
                assert(r.desc() =~= d.subrange(0, i as int));
                lemma_descending_sub(d, 0, i as int);
            }
            SetOrEmpty::NonEmpty(r)
        };
        let n = if hit {
            i + 1
        } else {
            i
        };
        // The items below `key` are what remains once the first `n` are removed.
        let left = Self::from_rest(self.remove_n_max(n).1);
        let mid = if hit {
            match &self.data[i] {
                Some(p) => Some(p.1.clone()),
                None => None,
            }
        } else {
            None
        };
        proof {
            if left is NonEmpty {
                lemma_descending_sub(d, n as int, d.len() as int);
                assert(d.skip(n as int) =~= d.subrange(n as int, d.len() as int));
                assert(d[n as int].0 < *key);
            } else {
                assert(d.len() <= n);
            }
            assert(d =~= opt_desc(right) + crate::gtree::mid_pairs(*key, mid) + opt_desc(left));
        }
        (left, mid, right)
    }

    // Splits by `key`, in terms of the descending sequence: the pairs above `key`, then the
    // pair of `key` if present, then the pairs below `key`.
    fn split_desc(&self, key: &u64) -> (r: (SetOrEmpty<Self>, Option<GTree<Self>>, SetOrEmpty<Self>))
        requires
            self.inv(),
        ensures
            opt_inv(r.0),
            opt_inv(r.2),
            self.desc() == opt_desc(r.2) + crate::gtree::mid_pairs(*key, r.1) + opt_desc(r.0),
            forall|i: int| 0 <= i < opt_desc(r.0).len() ==> #[trigger] opt_desc(r.0)[i].0 < *key,
            forall|i: int| 0 <= i < opt_desc(r.2).len() ==> #[trigger] opt_desc(r.2)[i].0 > *key,
        decreases self,
    {
        proof {
            self.lemma_inv();
        }
        let ghost d = self.desc();
        match bucket_search(&self.data, key) {
            Ok(i) => self.split_at(key, i, true),
            Err(i) => {
                if i == 0 {
                    // Every item here, and so in the whole list, is below `key`.
                    let l = self.duplicate();
                    proof {
                        Self::lemma_same_view(l, *self);
                        assert(d =~= opt_desc(SetOrEmpty::<Self>::Empty) + crate::gtree::mid_pairs(*key, None) + d);
                    }
                    (SetOrEmpty::NonEmpty(l), None, SetOrEmpty::Empty)
                } else if i == K {
                    // Every item of this bucket is above `key`.
                    match &self.next {
                        None => {
                            let r = self.duplicate();
                            proof {
                                Self::lemma_same_view(r, *self);
                                assert(d =~= d + crate::gtree::mid_pairs(*key, None) + opt_desc(SetOrEmpty::<Self>::Empty));
                            }
                            (SetOrEmpty::Empty, None, SetOrEmpty::NonEmpty(r))
                        },
                        Some(next) => {
                            let (left_rec, mid_rec, right_rec) = next.split_desc(key);
                            let mut cloned = self.duplicate();
                            cloned.next = match right_rec {
                                SetOrEmpty::Empty => None,
                                SetOrEmpty::NonEmpty(right_rec) => Some(Rc::new(right_rec)),
                            };
                            proof {
                                let bv = bucket_view(self.data@);
                                let nd = next.desc();
                                assert(cloned.desc() =~= bv + opt_desc(right_rec));
                                assert(d =~= cloned.desc() + crate::gtree::mid_pairs(*key, mid_rec) + opt_desc(left_rec));
                                lemma_descending_sub(d, 0, cloned.desc().len() as int);
                                assert(cloned.desc() =~= d.subrange(0, cloned.desc().len() as int));
                                assert forall|k: int| 0 <= k < cloned.desc().len() implies #[trigger] cloned.desc()[k].0 > *key by {
                                    if k < K {
                                        assert(cloned.desc()[k] == self.data@[k]->Some_0);
                                    } else {
                                        assert(cloned.desc()[k] == opt_desc(right_rec)[k - K]);
                                    }
                                }
                            }
                            (left_rec, mid_rec, SetOrEmpty::NonEmpty(cloned))
                        },
                    }
                } else {
                    self.split_at(key, i, false)
                }
            },
        }
    }

    // Prepends `right`, whose items are all above those of `left`, to `left`, and packs
    // buckets so that only the last one may have free slots.
    fn join_desc(left: &Self, right: &Self) -> (r: Self)
        requires
            left.inv(),
            right.inv(),
            right.desc().last().0 > left.desc()[0].0,
        ensures
            r.inv(),
            r.desc() == right.desc() + left.desc(),
        decreases right,
    {
        proof {
            left.lemma_inv();
            right.lemma_inv();
        }
        match &right.next {
            Some(right_next) => {
                proof {
                    right_next.lemma_inv();
                    assert(right_next.desc().last() == right.desc().last());
                }
                let rest = Self::join_desc(left, right_next);
                let r = NonemptyReverseKList {
                    data: make_bucket(&right.data, 0, K, &right.data, 0),
                    next: Some(Rc::new(rest)),
                };
                proof {
                    assert(r.data@ =~= right.data@);
                    assert(r.desc() =~= right.desc() + left.desc());
                    lemma_descending_concat(right.desc(), left.desc());
                }
                r
            },
            None => {
                let mut right_count: usize = 0;
                while right_count < K && right.data[right_count].is_some()
                    invariant
                        right.inv(),
                        right.data@.len() == K,
                        0 <= right_count <= filled(right.data@),
                        forall|j: int| 0 <= j < filled(right.data@) ==> #[trigger] right.data@[j] is Some,
                        forall|j: int| filled(right.data@) <= j < K ==> #[trigger] right.data@[j] is None,
                    decreases K - right_count,
                {
                    right_count = right_count + 1;
                }
                assert(right_count == filled(right.data@));
                if right_count == K {
                    // `right` is full: link `left` after it.
                    let r = NonemptyReverseKList {
                        data: make_bucket(&right.data, 0, K, &right.data, 0),
                        next: Some(Rc::new(left.duplicate())),
                    };
                    proof {
                        assert(r.data@ =~= right.data@);
                        Self::lemma_same_view(r.next_list(), *left);
                        assert(r.desc() =~= right.desc() + left.desc());
                        lemma_descending_concat(right.desc(), left.desc());
                    }
                    r
                } else {
                    // Fill the free slots of `right` with the greatest items of `left`.
                    let to_move = K - right_count;
                    let (left_removed, left_remaining) = left.remove_n_max(to_move);
                    let new_data = make_bucket(&right.data, 0, right_count, &left_removed, to_move);
                    let ghost ld = left.desc();
                    let ghost m: int = if ld.len() < to_move { ld.len() as int } else { to_move as int };
                    proof {
                        assert forall|i: int| 0 <= i < right_count + m implies #[trigger] new_data@[i] is Some by {
                            if i >= right_count {
                                assert(left_removed@[i - right_count] == Some(ld[i - right_count]));
                            }
                        }
                        assert forall|i: int| right_count + m <= i < K implies #[trigger] new_data@[i] is None by {
                            assert(left_removed@[i - right_count] is None);
                        }
                        lemma_filled_eq(new_data@, right_count + m);
                    }
                    let r = NonemptyReverseKList {
                        data: new_data,
                        next: match left_remaining {
                            None => None,
                            Some(l) => Some(Rc::new(l)),
                        },
                    };
                    proof {
                        let bv = bucket_view(new_data@);
                        assert forall|i: int| 0 <= i < bv.len() implies #[trigger] bv[i] == (right.desc() + ld)[i] by {
                            if i >= right_count {
                                assert(left_removed@[i - right_count] == Some(ld[i - right_count]));
                            } else {
                                assert(right.desc()[i] == right.data@[i]->Some_0);
                            }
                        }
                        if left_remaining is Some {
                            let rd = left_remaining->Some_0.desc();
                            assert(m == to_move);
                            assert(r.desc() == bv + rd);
                            assert forall|i: int| K <= i < r.desc().len() implies r.desc()[i]
                                == (right.desc() + ld)[i] by {
                                assert(r.desc()[i] == rd[i - K]);
                                assert(rd[i - K] == ld[to_move + i - K]);
                            }
                        }
                        assert(r.desc() =~= right.desc() + ld);
                        lemma_descending_concat(right.desc(), ld);
                    }
                    r
                }
            },
        }
    }
}

impl<const K: usize> NonemptySet for NonemptyReverseKList<K> {
    closed spec fn pairs(&self) -> Seq<(u64, GTree<Self>)> {
        rev(self.desc())
    }

    closed spec fn wf(&self) -> bool {
        self.inv()
    }

    open spec fn holds_items() -> bool {
        K > 0
    }

    proof fn lemma_wf(&self) {
        self.lemma_inv();
        let p = self.pairs();
        let it = items_of(p);
        assert forall|i: int, j: int| 0 <= i < j < it.len() implies it[i] < it[j] by {
            assert(it[i] == self.desc()[self.desc().len() - 1 - i].0);
            assert(it[j] == self.desc()[self.desc().len() - 1 - j].0);
        }
    }

    proof fn lemma_subtree_decreases(t: GTree<Self>, i: int) {
        let n = t->NonEmpty_0;
        let set = *n.set;
        set.lemma_desc_decreases(set.desc().len() - 1 - i);
        assert(decreases_to!(t => n));
        assert(decreases_to!(n => n.set));
    }

    fn singleton(item: (u64, GTree<Self>)) -> (r: Self) {
        let mut data: Vec<Option<KPair<K>>> = Vec::new();
        data.push(Some(item));
        let mut i: usize = 1;
        while i < K
            invariant
                1 <= i <= K,
                data@.len() == i,
                data@[0] == Some(item),
                forall|j: int| 1 <= j < i ==> #[trigger] data@[j] is None,
            decreases K - i,
        {
            data.push(None);
            i = i + 1;
        }
        let r = NonemptyReverseKList { data, next: None };
        proof {
            lemma_filled_eq(data@, 1);
            assert(r.desc() =~= seq![item]);
            assert(r.pairs() =~= seq![item]);
        }
        r
    }

    fn insert_min(&self, new_min: (u64, GTree<Self>)) -> (r: Self)
        decreases self,
    {
        proof {
            self.lemma_inv();
        }
        match &self.next {
            Some(next) => {
                // This is not the last bucket: insert into the rest of the list.
                proof {
                    next.lemma_inv();
                    assert(next.pairs()[0] == self.pairs()[0]);
                }
                let new_next = next.insert_min(new_min);
                let mut new_self = self.duplicate();
                new_self.next = Some(Rc::new(new_next));
                proof {
                    new_next.lemma_desc_pairs();
                    next.lemma_desc_pairs();
                    assert(new_next.desc() =~= next.desc().push(new_min));
                    assert(new_self.desc() =~= self.desc().push(new_min));
                    lemma_descending_concat(self.desc(), seq![new_min]);
                    assert(self.desc() + seq![new_min] =~= self.desc().push(new_min));
                    assert(new_self.pairs() =~= seq![new_min] + self.pairs());
                }
                new_self
            },
            None => {
                // This is the last bucket: use its first free slot, if any.
                let mut i: usize = 0;
                while i < K
                    invariant
                        0 <= i <= K,
                        self.inv(),
                        self.next is None,
                        new_min.0 < self.pairs()[0].0,
                        self.data@.len() == K,
                        forall|j: int| 0 <= j < i ==> #[trigger] self.data@[j] is Some,
                    decreases K - i,
                {
                    if self.data[i].is_none() {
                        let mut one: Vec<Option<KPair<K>>> = Vec::new();
                        one.push(Some(new_min));
                        let new_data = make_bucket(&self.data, 0, i, &one, 1);
                        let r = NonemptyReverseKList { data: new_data, next: None };
                        proof {
                            self.lemma_inv();
                            lemma_filled(self.data@);
                            if i > filled(self.data@) {
                                assert(self.data@[filled(self.data@)] is Some);
                            }
                            lemma_filled_eq(new_data@, i + 1);
                            assert(i == filled(self.data@));
                            assert(r.desc() =~= self.desc().push(new_min));
                            assert(self.pairs()[0] == self.desc().last());
                            lemma_descending_concat(self.desc(), seq![new_min]);
                            assert(self.desc() + seq![new_min] =~= self.desc().push(new_min));
                            assert(r.pairs() =~= seq![new_min] + self.pairs());
                        }
                        return r;
                    }
                    i = i + 1;
                }
                // The bucket is full: append a new bucket.
                let new_bucket = Rc::new(Self::singleton(new_min));
                let r = NonemptyReverseKList {
                    data: make_bucket(&self.data, 0, K, &self.data, 0),
                    next: Some(new_bucket),
                };
                proof {
                    lemma_filled_eq(r.data@, K as int);
                    lemma_filled_eq(self.data@, K as int);
                    assert(r.data@ =~= self.data@);
                    new_bucket.lemma_desc_pairs();
                    assert(r.desc() =~= self.desc().push(new_min));
                    assert(self.pairs()[0] == self.desc().last());
                    lemma_descending_concat(self.desc(), seq![new_min]);
                    assert(self.desc() + seq![new_min] =~= self.desc().push(new_min));
                    assert(r.pairs() =~= seq![new_min] + self.pairs());
                }
                r
            },
        }
    }

    fn remove_min(&self) -> (r: ((u64, GTree<Self>), SetOrEmpty<Self>))
        decreases self,
    {
        proof {
            self.lemma_inv();
        }
        match &self.next {
            Some(next) => {
                // This is not the last bucket: remove from the rest of the list.
                let (min, new_next) = next.remove_min();
                let mut new_self = self.duplicate();
                new_self.next = match new_next {
                    SetOrEmpty::Empty => None,
                    SetOrEmpty::NonEmpty(new_next) => Some(Rc::new(new_next)),
                };
                proof {
                    next.lemma_inv();
                    let nd = next.desc();
                    assert(next.pairs()[0] == nd.last());
                    if new_next is NonEmpty {
                        let nn = new_next->NonEmpty_0;
                        assert(nn.desc() =~= rev(nn.pairs()));
                        assert(nn.desc() =~= nd.drop_last());
                    } else {
                        assert(nd.len() == 1);
                    }
                    assert(new_self.desc() =~= self.desc().drop_last());
                    lemma_filled(self.data@);
                    assert(new_self.inv());
                    assert(new_self.pairs() =~= self.pairs().skip(1));
                }
                (min, SetOrEmpty::NonEmpty(new_self))
            },
            None => {
                // This is the last bucket: remove its last occupied slot.
                let mut i: usize = K;
                while self.data[i - 1].is_none()
                    invariant
                        self.inv(),
                        self.next is None,
                        self.data@.len() == K,
                        filled(self.data@) <= i <= K,
                        forall|j: int| 0 <= j < filled(self.data@) ==> #[trigger] self.data@[j] is Some,
                    decreases i,
                {
                    i = i - 1;
                }
                proof {
                    lemma_filled(self.data@);
                }
                assert(i == filled(self.data@));
                let min = match &self.data[i - 1] {
                    Some(p) => (p.0, p.1.clone()),
                    None => (0, GTree::Empty),
                };
                if i == 1 {
                    // The bucket, and so the list, becomes empty.
                    (min, SetOrEmpty::Empty)
                } else {
                    let new_data = make_bucket(&self.data, 0, i - 1, &self.data, 0);
                    let l = NonemptyReverseKList { data: new_data, next: None };
                    proof {
                        lemma_filled_eq(new_data@, i - 1);
                        assert(l.desc() =~= self.desc().drop_last());
                        assert(l.pairs() =~= self.pairs().skip(1));
                    }
                    (min, SetOrEmpty::NonEmpty(l))
                }
            },
        }
    }


    fn split(&self, key: &u64) -> (r: (SetOrEmpty<Self>, Option<GTree<Self>>, SetOrEmpty<Self>)) {
        let r = self.split_desc(key);
        proof {
            let dl = opt_desc(r.0);
            let dr = opt_desc(r.2);
            let m = crate::gtree::mid_pairs(*key, r.1);
            let lo = if r.0 is NonEmpty { r.0->NonEmpty_0.pairs() } else { seq![] };
            let hi = if r.2 is NonEmpty { r.2->NonEmpty_0.pairs() } else { seq![] };
            assert(lo =~= rev(dl));
            assert(hi =~= rev(dr));
            assert(rev(m) =~= m);
            assert(lo + m + hi =~= rev(dr + m + dl));
            if r.0 is NonEmpty {
                assert forall|i: int| 0 <= i < lo.len() implies #[trigger] lo[i].0 < *key by {
                    assert(lo[i] == dl[dl.len() - 1 - i]);
                }
            }
            if r.2 is NonEmpty {
                assert forall|i: int| 0 <= i < hi.len() implies #[trigger] hi[i].0 > *key by {
                    assert(hi[i] == dr[dr.len() - 1 - i]);
                }
            }
        }
        r
    }

    fn join(left: &Self, right: &Self) -> (r: Self) {
        proof {
            left.lemma_inv();
            right.lemma_inv();
            assert(left.pairs().last() == left.desc()[0]);
            assert(right.pairs()[0] == right.desc().last());
        }
        let r = Self::join_desc(left, right);
        assert(r.pairs() =~= left.pairs() + right.pairs());
        r
    }

    fn search(&self, key: &u64) -> (r: Option<(u64, GTree<Self>)>)
        decreases self,
    {
        proof {
            self.lemma_inv();
        }
        let ghost d = self.desc();
        let ghost len = d.len();
        match bucket_search(&self.data, key) {
            Ok(i) => {
                proof {
                    assert(self.pairs()[len - 1 - i] == d[i as int]);
                    if i + 1 < len {
                        assert(self.pairs()[len - 1 - i - 1] == d[i + 1]);
                    }
                }
                clone_slot(&self.data[i])
            },
            Err(i) => {
                if i == 0 {
                    proof {
                        assert forall|k: int| 0 <= k < len implies self.pairs()[k].0 < *key by {
                            assert(self.pairs()[k] == d[len - 1 - k]);
                            if len - 1 - k > 0 {
                                assert(d[0].0 > d[len - 1 - k].0);
                            }
                        }
                    }
                    None
                } else if i == K {
                    match &self.next {
                        None => {
                            proof {
                                assert(self.pairs()[0] == d[i - 1]);
                            }
                            clone_slot(&self.data[i - 1])
                        },
                        Some(next) => {
                            proof {
                                next.lemma_inv();
                            }
                            let ghost nd = next.desc();
                            match next.search(key) {
                                None => {
                                    proof {
                                        assert(self.pairs()[len - K] == d[K - 1]);
                                        assert(next.pairs()[nd.len() - 1] == nd[0]);
                                        assert(self.pairs()[len - K - 1] == d[K as int]);
                                    }
                                    clone_slot(&self.data[K - 1])
                                },
                                Some(yay) => {
                                    proof {
                                        let j = choose|j: int|
                                            0 <= j < next.pairs().len() && #[trigger] next.pairs()[j]
                                                == yay && yay.0 >= *key && (j == 0 || next.pairs()[j
                                                - 1].0 < *key);
                                        assert(next.pairs()[j] == nd[nd.len() - 1 - j]);
                                        assert(self.pairs()[j] == d[len - 1 - j]);
                                        assert(d[len - 1 - j] == nd[nd.len() - 1 - j]);
                                        if j > 0 {
                                            assert(self.pairs()[j - 1] == d[len - j]);
                                            assert(next.pairs()[j - 1] == nd[nd.len() - j]);
                                        }
                                    }
                                    Some(yay)
                                },
                            }
                        },
                    }
                } else {
                    proof {
                        assert(self.pairs()[len - i] == d[i - 1]);
                        if i < len {
                            assert(self.pairs()[len - i - 1] == d[i as int]);
                            if i >= filled(self.data@) {
                                assert(self.next is Some);
                            }
                        }
                    }
                    clone_slot(&self.data[i - 1])
                }
            },
        }
    }
}


impl<const K: usize> NonemptyReverseKList<K> {
    /// The number of slots of all buckets.
    pub closed spec fn slots(&self) -> nat
        decreases self,
    {
        match self.next {
            Some(n) => K as nat + n.slots(),
            None => K as nat,
        }
    }

    proof fn lemma_slots(&self)
        requires
            self.shape(),
        ensures
            self.desc().len() <= self.slots(),
        decreases self,
    {
        self.lemma_desc_len();
        lemma_filled(self.data@);
        if let Some(n) = self.next {
            n.lemma_slots();
        }
    }

    // The pair at `index`, where index 0 denotes the greatest item.
    fn get_pair_by_inverted_index(&self, index: usize) -> (r: Option<&KPair<K>>)
        requires
            self.inv(),
        ensures
            r is Some <==> index < self.desc().len(),
            r is Some ==> *r->Some_0 == self.desc()[index as int],
        decreases self,
    {
        proof {
            self.lemma_inv();
        }
        if index < K {
            match &self.data[index] {
                Some(p) => Some(p),
                None => None,
            }
        } else {
            match &self.next {
                Some(next) => next.get_pair_by_inverted_index(index - K),
                None => None,
            }
        }
    }
}

impl<const K: usize> NonemptySetMeta for NonemptyReverseKList<K> {
    closed spec fn slot_count(&self) -> nat {
        self.slots()
    }

    fn get_max(&self) -> (r: &u64) {
        proof {
            self.lemma_inv();
            assert(self.pairs().last() == self.desc()[0]);
        }
        match &self.data[0] {
            Some(p) => &p.0,
            None => unreached(),
        }
    }

    fn get_min(&self) -> (r: &u64)
        decreases self,
    {
        proof {
            self.lemma_inv();
            assert(self.pairs()[0] == self.desc().last());
        }
        match &self.next {
            Some(next) => {
                proof {
                    next.lemma_inv();
                    assert(next.pairs()[0] == next.desc().last());
                }
                next.get_min()
            },
            None => {
                let mut i: usize = K;
                while self.data[i - 1].is_none()
                    invariant
                        self.inv(),
                        self.data@.len() == K,
                        filled(self.data@) <= i <= K,
                        forall|j: int| 0 <= j < filled(self.data@) ==> #[trigger] self.data@[j] is Some,
                    decreases i,
                {
                    i = i - 1;
                }
                proof {
                    lemma_filled(self.data@);
                }
                match &self.data[i - 1] {
                    Some(p) => &p.0,
                    None => unreached(),
                }
            },
        }
    }

    fn len(&self) -> (r: usize)
        decreases self,
    {
        proof {
            self.lemma_inv();
            self.lemma_desc_pairs();
        }
        match &self.next {
            Some(next) => {
                proof {
                    next.lemma_inv();
                    next.lemma_desc_pairs();
                }
                K + next.len()
            },
            None => {
                let mut i: usize = K;
                while self.data[i - 1].is_none()
                    invariant
                        self.inv(),
                        self.data@.len() == K,
                        filled(self.data@) <= i <= K,
                        forall|j: int| 0 <= j < filled(self.data@) ==> #[trigger] self.data@[j] is Some,
                    decreases i,
                {
                    i = i - 1;
                }
                proof {
                    lemma_filled(self.data@);
                }
                i
            },
        }
    }

    fn item_slot_count(&self) -> (r: usize)
        decreases self,
    {
        proof {
            self.lemma_inv();
            self.lemma_slots();
        }
        match &self.next {
            Some(next) => {
                proof {
                    next.lemma_inv();
                }
                K + next.item_slot_count()
            },
            None => K,
        }
    }

    fn get_pair_by_index(&self, index: usize) -> (r: Option<&KPair<K>>) {
        let len = self.len();
        if index >= len {
            None
        } else {
            proof {
                self.lemma_desc_pairs();
            }
            self.get_pair_by_inverted_index(len - (1 + index))
        }
    }

    fn from_descending(items: &[u64]) -> (r: Self) {
        let mut ret = Self::singleton((items[0], GTree::Empty));
        if items.len() == 1 {
            assert(ret.pairs() =~= ascending_of::<Self>(items@));
            return ret;
        }
        let mut i: usize = 1;
        while i < items.len()
            invariant
                1 <= i <= items@.len(),
                descending(items@),
                ret.wf(),
                ret.pairs() == ascending_of::<Self>(items@.subrange(0, i as int)),
            decreases items@.len() - i,
        {
            proof {
                assert(ret.pairs()[0].0 == items@[i - 1]);
            }
            ret = ret.insert_min((items[i], GTree::Empty));
            i = i + 1;
            assert(ret.pairs() =~= ascending_of::<Self>(items@.subrange(0, i as int)));
        }
        assert(items@.subrange(0, i as int) =~= items@);
        ret
    }
}


/// `p / q`, rounded up.
pub open spec fn ceil_div(p: int, q: int) -> int {
    if p % q == 0 {
        p / q
    } else {
        p / q + 1
    }
}

fn div_ceil(p: usize, q: usize) -> (r: usize)
    requires
        q > 0,
    ensures
        r == ceil_div(p as int, q as int),
{
    if p % q == 0 {
        p / q
    } else {
        assert(p / q < usize::MAX) by (nonlinear_arith)
            requires
                q > 1,
                p <= usize::MAX,
        ;
        (p / q) + 1
    }
}

/// Height of a tree of k-lists counted in buckets: reaching the pair at ascending
/// index `i` of a node, or its right subtree after the last pair, takes `ceil(i / K)`
/// bucket steps.
pub open spec fn bucket_height<const K: usize>(t: GTree<NonemptyReverseKList<K>>) -> nat
    decreases t, 1int,
{
    match t {
        GTree::Empty => 0,
        GTree::NonEmpty(_) => pairs_bucket_height(t, root_len(t)),
    }
}

pub open spec fn pairs_bucket_height<const K: usize>(t: GTree<NonemptyReverseKList<K>>, i: int) -> nat
    decreases t, 0int, i,
    via pairs_bucket_height_decreases::<K>
{
    if no_pair(t, i) {
        0
    } else {
        let a = pairs_bucket_height(t, i - 1) as int;
        let steps = ceil_div(i - 1, K as int);
        let b = bucket_height(subtree_at(t, i - 1)) as int + steps;
        let c = if i == root_len(t) {
            bucket_height(t->NonEmpty_0.right) as int + steps
        } else {
            0
        };
        let ab = if a < b {
            b
        } else {
            a
        };
        (if ab < c {
            c
        } else {
            ab
        }) as nat
    }
}

#[via_fn]
proof fn pairs_bucket_height_decreases<const K: usize>(t: GTree<NonemptyReverseKList<K>>, i: int) {
    if !no_pair(t, i) {
        NonemptyReverseKList::<K>::lemma_subtree_decreases(t, i - 1);
    }
}

proof fn lemma_bucket_height_partial<const K: usize>(t: GTree<NonemptyReverseKList<K>>, i: int)
    requires
        t is NonEmpty,
        t->NonEmpty_0.set.wf(),
        0 <= i <= root_len(t),
    ensures
        pairs_bucket_height(t, i) <= bucket_height(t),
    decreases root_len(t) - i,
{
    if i < root_len(t) {
        lemma_bucket_height_partial(t, i + 1);
    }
}

/// The height of a tree of k-lists counted in buckets.
pub fn physical_height<const K: usize>(t: &GTree<NonemptyReverseKList<K>>) -> (r: usize)
    requires
        tree_wf(*t),
        tree_seq(*t).len() <= usize::MAX,
        bucket_height(*t) <= usize::MAX,
    ensures
        r == bucket_height(*t),
    decreases t,
{
    match t {
        GTree::Empty => 0,
        GTree::NonEmpty(node) => {
            proof {
                crate::gtree::lemma_node(*t);
                node.set.lemma_inv();
                node.set.lemma_desc_pairs();
                crate::stats::lemma_flat_len(node.set.pairs());
            }
            let len = node.set.len();
            let mut height: usize = 0;
            let mut i: usize = 0;
            while i < len
                invariant
                    *t == GTree::NonEmpty(*node),
                    tree_wf(*t),
                    t->NonEmpty_0.set.wf(),
                    K > 0,
                    len == root_len(*t),
                    0 <= i <= len,
                    bucket_height(*t) <= usize::MAX,
                    tree_seq(*t).len() <= usize::MAX,
                    tree_seq(*t) == crate::gtree::flat(t->NonEmpty_0.set.pairs()) + tree_seq(node.right),
                    height == pairs_bucket_height(*t, i as int),
                    forall|j: int| 0 <= j < len ==> #[trigger] tree_wf(subtree_at(*t, j)),
                    tree_wf(node.right),
                decreases len - i,
            {
                let (_, subtree) = match node.set.get_pair_by_index(i) {
                    Some(p) => p,
                    None => unreached(),
                };
                proof {
                    NonemptyReverseKList::<K>::lemma_subtree_decreases(*t, i as int);
                    lemma_bucket_height_partial(*t, i as int + 1);
                    assert(tree_wf(subtree_at(*t, i as int)));
                    crate::gtree::lemma_flat_first(t->NonEmpty_0.set.pairs(), i as int);
                }
                let steps = div_ceil(i, K);
                let below = physical_height(subtree) + steps;
                if height < below {
                    height = below;
                }
                if i == len - 1 {
                    let right = physical_height(&node.right) + steps;
                    if height < right {
                        height = right;
                    }
                }
                i = i + 1;
            }
            height
        },
    }
}


impl<const K: usize> NonemptyReverseKList<K> {
    /// The two lists have the same buckets, slot for slot, and the same chain length.
    pub closed spec fn same_buckets(&self, other: &Self) -> bool
        decreases self,
    {
        &&& self.data@ == other.data@
        &&& match (self.next, other.next) {
            (Some(a), Some(b)) => a.same_buckets(&*b),
            (None, None) => true,
            _ => false,
        }
    }

    /// A valid k-list is determined by its pairs: two valid k-lists with the same pairs
    /// have the same buckets. With the contracts of `split`, `insert_min` and `join`,
    /// splitting a k-list and joining the parts back (the middle pair put back first)
    /// gives a k-list with the same buckets as the list that was split.
    pub proof fn lemma_canonical(&self, other: &Self)
        requires
            self.wf(),
            other.wf(),
            self.pairs() == other.pairs(),
        ensures
            self.same_buckets(other),
        decreases self,
    {
        self.lemma_inv();
        other.lemma_inv();
        self.lemma_desc_pairs();
        other.lemma_desc_pairs();
        let d = self.desc();
        assert(d == other.desc());
        lemma_filled(self.data@);
        lemma_filled(other.data@);
        if self.next is Some {
            assert(other.next is Some);
            assert forall|i: int| 0 <= i < K implies self.data@[i] == other.data@[i] by {
                assert(self.desc()[i] == self.data@[i]->Some_0);
                assert(other.desc()[i] == other.data@[i]->Some_0);
            }
            assert(self.data@ =~= other.data@);
            let a = self.next_list();
            let b = other.next_list();
            assert(a.desc() =~= d.skip(K as int));
            assert(b.desc() =~= d.skip(K as int));
            a.lemma_desc_pairs();
            b.lemma_desc_pairs();
            a.lemma_canonical(&b);
        } else {
            assert(other.next is None);
            let f = filled(self.data@);
            assert(f == filled(other.data@));
            assert forall|i: int| 0 <= i < K implies self.data@[i] == other.data@[i] by {
                if i < f {
                    assert(self.desc()[i] == self.data@[i]->Some_0);
                    assert(other.desc()[i] == other.data@[i]->Some_0);
                }
            }
            assert(self.data@ =~= other.data@);
        }
    }
}


impl<const K: usize> NonemptyReverseKList<K> {
    /// The number of buckets.
    pub closed spec fn bucket_count(&self) -> nat
        decreases self,
    {
        match self.next {
            Some(n) => 1 + n.bucket_count(),
            None => 1,
        }
    }

    proof fn lemma_slots_shape(&self)
        requires
            self.shape(),
        ensures
            self.slots() == K * self.bucket_count(),
            self.desc().len() <= self.slots() < self.desc().len() + K,
        decreases self,
    {
        self.lemma_desc_len();
        lemma_filled(self.data@);
        if let Some(n) = self.next {
            n.lemma_slots_shape();
            assert(K * (1 + n.bucket_count()) == K + K * n.bucket_count()) by (nonlinear_arith);
        } else {
            assert(K * 1 == K) by (nonlinear_arith);
        }
    }

    /// A valid k-list has `K` slots per bucket, and only its last bucket has free slots:
    /// fewer than `K` slots are free.
    pub proof fn lemma_slot_count(&self)
        requires
            self.wf(),
        ensures
            self.slot_count() == K * self.bucket_count(),
            self.pairs().len() <= self.slot_count() < self.pairs().len() + K,
    {
        self.lemma_slots_shape();
    }

    /// Adding a least pair takes a new bucket exactly when every slot was in use.
    pub proof fn lemma_insert_min_slots(&self, grown: &Self, new_min: KPair<K>)
        requires
            self.wf(),
            grown.wf(),
            grown.pairs() == seq![new_min] + self.pairs(),
        ensures
            grown.slot_count() == self.slot_count() + if self.pairs().len() == self.slot_count() {
                K as nat
            } else {
                0
            },
    {
        self.lemma_slot_count();
        grown.lemma_slot_count();
        let l = self.pairs().len();
        let p = self.bucket_count();
        let q = grown.bucket_count();
        assert(grown.pairs().len() == l + 1);
        if l == self.slot_count() {
            assert(q == p + 1) by (nonlinear_arith)
                requires
                    K * p == l,
                    l + 1 <= K * q,
                    K * q < l + 1 + K,
                    K > 0,
            ;
            assert(K * q == K * p + K) by (nonlinear_arith)
                requires
                    q == p + 1,
            ;
        } else {
            assert(q == p) by (nonlinear_arith)
                requires
                    l + 1 <= K * p,
                    K * p < l + K,
                    l + 1 <= K * q,
                    K * q < l + 1 + K,
                    K > 0,
            ;
        }
    }
}

} // verus!
