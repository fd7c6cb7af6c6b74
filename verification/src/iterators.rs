//! Ordered range iteration over the tree, driven by successor queries.

use vstd::prelude::*;
use crate::tree::AVLTree;
use crate::node::sub_map;
use crate::node::sorted;
use crate::node::Node;

verus! {

/// One end of a key interval.
#[derive(Clone, Copy)]
pub enum Bound {
    Included(u64),
    Excluded(u64),
    Unbounded,
}

/// Whether `k` lies on the right side of the lower bound `b`.
pub open spec fn lower_ok(b: Bound, k: u64) -> bool {
    match b {
        Bound::Included(x) => k >= x,
        Bound::Excluded(x) => k > x,
        Bound::Unbounded => true,
    }
}

/// Whether `k` lies on the left side of the upper bound `b`.
pub open spec fn upper_ok(b: Bound, k: u64) -> bool {
    match b {
        Bound::Included(x) => k <= x,
        Bound::Excluded(x) => k < x,
        Bound::Unbounded => true,
    }
}

/// Whether `k` lies inside the interval given by `from` and `to`.
pub open spec fn in_range(from: Bound, to: Bound, k: u64) -> bool {
    lower_ok(from, k) && upper_ok(to, k)
}

/// A read-only forward cursor over the key/value pairs of a tree whose
/// keys lie between two bounds, in ascending key order. It remembers the
/// last key returned and finds each next pair with a successor query;
/// the ghost sequence `yielded` records every key returned so far.
pub struct RangePairIter<'a, V> {
    pub tree: &'a AVLTree<V>,
    pub from: Bound,
    pub to: Bound,
    pub prev: Option<u64>,
    pub yielded: Ghost<Seq<u64>>,
}

impl<'a, V> RangePairIter<'a, V> {
    /// The cursor invariant: the tree is well formed, and `yielded`
    /// holds, in strictly ascending order, exactly those keys of the
    /// tree that lie on the right side of the lower bound and do not
    /// exceed the last key returned.
    pub open spec fn wf(self) -> bool {
        &&& self.tree.wf()
        &&& match self.prev {
            None => self.yielded@ == Seq::<u64>::empty(),
            Some(p) => {
                &&& self.yielded@.len() > 0
                &&& self.yielded@.last() == p
                &&& lower_ok(self.from, p)
                &&& upper_ok(self.to, p)
                &&& (forall|i: int, j: int|
                    0 <= i < j < self.yielded@.len() ==> self.yielded@[i] < self.yielded@[j])
                &&& (forall|i: int|
                    0 <= i < self.yielded@.len() ==> sub_map(self.tree.root).dom().contains(
                        #[trigger] self.yielded@[i],
                    ) && lower_ok(self.from, self.yielded@[i]))
                &&& (forall|k: u64|
                    #[trigger] sub_map(self.tree.root).dom().contains(k) && lower_ok(
                        self.from,
                        k,
                    ) && k <= p ==> self.yielded@.contains(k))
            },
        }
    }

    /// A fresh cursor over `tree` between the two bounds.
    pub fn new(tree: &'a AVLTree<V>, lower: Bound, upper: Bound) -> (it: RangePairIter<'a, V>)
        requires
            tree.wf(),
        ensures
            it.wf(),
            it.tree == tree,
            it.from == lower,
            it.to == upper,
            it.prev is None,
            it.yielded@ == Seq::<u64>::empty(),
    {
        RangePairIter { tree, from: lower, to: upper, prev: None, yielded: Ghost(Seq::empty()) }
    }

    /// The first pair at or after the lower bound: an exact match for an
    /// inclusive bound, the successor for an exclusive one, the tree
    /// minimum when unbounded.
    fn get_lower_bound_pair(&self, root: &'a Box<Node<V>>) -> (r: Option<(&'a u64, &'a V)>)
        requires
            sorted(Some(*root)),
        ensures
            match r {
                Some(p) => {
                    &&& sub_map(Some(*root)).dom().contains(*p.0)
                    &&& lower_ok(self.from, *p.0)
                    &&& *p.1 == sub_map(Some(*root))[*p.0]
                    &&& forall|k: u64|
                        sub_map(Some(*root)).dom().contains(k) && lower_ok(self.from, k) ==> k
                            >= *p.0
                },
                None => forall|k: u64|
                    sub_map(Some(*root)).dom().contains(k) ==> !lower_ok(self.from, k),
            },
    {
        match self.from {
            Bound::Included(key) => {
                match crate::node::search_pair(&key, root) {
                    Some(p) => Some(p),
                    None => crate::node::min_after(&key, root),
                }
            },
            Bound::Excluded(key) => crate::node::min_after(&key, root),
            Bound::Unbounded => Some(crate::node::min_pair(root)),
        }
    }

    /// The candidate for the next pair: the resolved lower bound before
    /// anything was returned, afterwards the successor of the last
    /// returned key.
    fn get_next_pair(&mut self, root: &'a Box<Node<V>>) -> (r: Option<(&'a u64, &'a V)>)
        requires
            sorted(Some(*root)),
        ensures
            *final(self) == *old(self),
            match old(self).prev {
                None => match r {
                    Some(p) => {
                        &&& sub_map(Some(*root)).dom().contains(*p.0)
                        &&& lower_ok(old(self).from, *p.0)
                        &&& *p.1 == sub_map(Some(*root))[*p.0]
                        &&& forall|k: u64|
                            sub_map(Some(*root)).dom().contains(k) && lower_ok(
                                old(self).from,
                                k,
                            ) ==> k >= *p.0
                    },
                    None => forall|k: u64|
                        sub_map(Some(*root)).dom().contains(k) ==> !lower_ok(old(self).from, k),
                },
                Some(q) => match r {
                    Some(p) => {
                        &&& sub_map(Some(*root)).dom().contains(*p.0)
                        &&& *p.0 > q
                        &&& *p.1 == sub_map(Some(*root))[*p.0]
                        &&& forall|k: u64|
                            sub_map(Some(*root)).dom().contains(k) && k > q ==> k >= *p.0
                    },
                    None => forall|k: u64| sub_map(Some(*root)).dom().contains(k) ==> k <= q,
                },
            },
    {
        match self.prev {
            None => self.get_lower_bound_pair(root),
            Some(key) => crate::node::min_after(&key, root),
        }
    }

    /// Pass `current` through when its key respects the upper bound,
    /// else signal exhaustion.
    fn check_upper_bound<'b>(&self, current: (&'b u64, &'b V)) -> (r: Option<(&'b u64, &'b V)>)
        ensures
            upper_ok(self.to, *current.0) ==> r == Some(current),
            !upper_ok(self.to, *current.0) ==> r is None,
    {
        let ok = match self.to {
            Bound::Included(key) => *current.0 <= key,
            Bound::Excluded(key) => *current.0 < key,
            Bound::Unbounded => true,
        };
        if ok {
            Some(current)
        } else {
            None
        }
    }

    /// Advance the cursor below the given root node: find the candidate
    /// pair, stop at the upper bound, and otherwise record and return
    /// the pair.
    fn get_next_key_under(&mut self, root: &'a Box<Node<V>>) -> (r: Option<(&'a u64, &'a V)>)
        requires
            old(self).wf(),
            old(self).tree.root == Some(*root),
        ensures
            final(self).wf(),
            final(self).tree == old(self).tree,
            final(self).from == old(self).from,
            final(self).to == old(self).to,
            match r {
                None => {
                    &&& *final(self) == *old(self)
                    &&& forall|k: u64|
                        #[trigger] sub_map(old(self).tree.root).dom().contains(k) && in_range(
                            old(self).from,
                            old(self).to,
                            k,
                        ) ==> old(self).yielded@.contains(k)
                },
                Some(p) => {
                    &&& sub_map(old(self).tree.root).dom().contains(*p.0)
                    &&& *p.1 == sub_map(old(self).tree.root)[*p.0]
                    &&& in_range(old(self).from, old(self).to, *p.0)
                    &&& final(self).prev == Some(*p.0)
                    &&& final(self).yielded@ == old(self).yielded@.push(*p.0)
                    &&& match old(self).prev {
                        Some(q) => *p.0 > q && (forall|k: u64|
                            #[trigger] sub_map(old(self).tree.root).dom().contains(k) && k > q
                                ==> k >= *p.0),
                        None => forall|k: u64|
                            #[trigger] sub_map(old(self).tree.root).dom().contains(k)
                                && lower_ok(old(self).from, k) ==> k >= *p.0,
                    }
                },
            },
    {
        let ghost pre = *self;
        let cand = self.get_next_pair(root);
        let res = match cand {
            Some(p) => self.check_upper_bound(p),
            None => None,
        };
        match res {
            None => {
                proof {
                    let m = sub_map(pre.tree.root);
                    assert forall|k: u64|
                        m.dom().contains(k) && in_range(pre.from, pre.to, k) implies pre.yielded@
                        .contains(k) by {
                        match pre.prev {
                            None => {
                                match cand {
                                    Some(c) => {
                                        // The candidate was the least key past the
                                        // lower bound and it already broke the upper
                                        // bound, so nothing lies in the interval.
                                        assert(k >= *c.0);
                                        assert(!upper_ok(pre.to, *c.0));
                                        match pre.to {
                                            Bound::Included(u) => {},
                                            Bound::Excluded(u) => {},
                                            Bound::Unbounded => {},
                                        }
                                        assert(false);
                                    },
                                    None => {
                                        assert(false);
                                    },
                                }
                            },
                            Some(q) => {
                                if k <= q {
                                } else {
                                    match cand {
                                        Some(c) => {
                                            assert(k >= *c.0);
                                            assert(!upper_ok(pre.to, *c.0));
                                            match pre.to {
                                                Bound::Included(u) => {},
                                                Bound::Excluded(u) => {},
                                                Bound::Unbounded => {},
                                            }
                                            assert(false);
                                        },
                                        None => {
                                            assert(false);
                                        },
                                    }
                                }
                            },
                        }
                    }
                }
                None
            },
            Some(pair) => {
                let key = *pair.0;
                self.prev = Some(key);
                proof {
                    let y0 = pre.yielded@;
                    let y1 = y0.push(key);
                    match pre.prev {
                        Some(q) => {
                            assert(key > q);
                            assert forall|i: int, j: int| 0 <= i < j < y1.len() implies y1[i]
                                < y1[j] by {
                                if j < y1.len() - 1 {
                                    assert(y0[i] < y0[j]);
                                } else {
                                    if i < y0.len() - 1 {
                                        assert(y0[i] < y0[y0.len() - 1]);
                                    }
                                }
                            }
                            match pre.from {
                                Bound::Included(x) => {},
                                Bound::Excluded(x) => {},
                                Bound::Unbounded => {},
                            }
                            assert(lower_ok(pre.from, key));
                            assert forall|k: u64|
                                sub_map(pre.tree.root).dom().contains(k) && lower_ok(
                                    pre.from,
                                    k,
                                ) && k <= key implies y1.contains(k) by {
                                if k <= q {
                                    assert(y0.contains(k));
                                    let i = choose|i: int| 0 <= i < y0.len() && y0[i] == k;
                                    assert(y1[i] == k);
                                } else {
                                    assert(k >= key);
                                    assert(y1[y1.len() - 1] == key);
                                }
                            }
                        },
                        None => {
                            assert(y0.len() == 0);
                            assert forall|k: u64|
                                sub_map(pre.tree.root).dom().contains(k) && lower_ok(
                                    pre.from,
                                    k,
                                ) && k <= key implies y1.contains(k) by {
                                assert(k >= key);
                                assert(y1[0] == key);
                            }
                        },
                    }
                }
                self.yielded = Ghost(self.yielded@.push(key));
                Some(pair)
            },
        }
    }

    /// Produce the next key/value pair of the range, or nothing once the
    /// range is exhausted.
    pub fn next(&mut self) -> (r: Option<(&'a u64, &'a V)>)
        requires
            old(self).wf(),
        ensures
            final(self).wf(),
            final(self).tree == old(self).tree,
            final(self).from == old(self).from,
            final(self).to == old(self).to,
            match r {
                None => {
                    &&& *final(self) == *old(self)
                    &&& forall|k: u64|
                        #[trigger] sub_map(old(self).tree.root).dom().contains(k) && in_range(
                            old(self).from,
                            old(self).to,
                            k,
                        ) ==> old(self).yielded@.contains(k)
                },
                Some(p) => {
                    &&& sub_map(old(self).tree.root).dom().contains(*p.0)
                    &&& *p.1 == sub_map(old(self).tree.root)[*p.0]
                    &&& in_range(old(self).from, old(self).to, *p.0)
                    &&& final(self).prev == Some(*p.0)
                    &&& final(self).yielded@ == old(self).yielded@.push(*p.0)
                    &&& match old(self).prev {
                        Some(q) => *p.0 > q && (forall|k: u64|
                            #[trigger] sub_map(old(self).tree.root).dom().contains(k) && k > q
                                ==> k >= *p.0),
                        None => forall|k: u64|
                            #[trigger] sub_map(old(self).tree.root).dom().contains(k)
                                && lower_ok(old(self).from, k) ==> k >= *p.0,
                    }
                },
            },
    {
        let tree_ref = self.tree;
        match &tree_ref.root {
            None => {
                proof {
                    assert(sub_map(tree_ref.root) =~= Map::<u64, V>::empty());
                }
                None
            },
            Some(node) => self.get_next_key_under(node),
        }
    }
}

} // verus!
