//! The container façade: an optional root plus the public map interface.

use vstd::prelude::*;
use crate::node::Node;

verus! {

/// An ordered map from `u64` keys to values of type `V`, kept balanced
/// as an AVL tree.
pub struct AVLTree<V> {
    pub root: Option<Box<Node<V>>>,
}

impl<V> AVLTree<V> {
    /// Both tree invariants: search order and height balance.
    pub open spec fn wf(self) -> bool {
        crate::node::wf(self.root)
    }

    /// Construct a new empty tree.
    pub fn new() -> (t: AVLTree<V>)
        ensures
            t.wf(),
            t@ == Map::<u64, V>::empty(),
    {
        AVLTree { root: None }
    }
}

impl<V> View for AVLTree<V> {
    type V = Map<u64, V>;

    open spec fn view(&self) -> Map<u64, V> {
        crate::node::sub_map(self.root)
    }
}

impl<V> AVLTree<V> {
    /// Insert the key/value pair into the tree, overwriting the old
    /// value if the key is already present.
    pub fn insert(&mut self, key: u64, data: V)
        requires
            old(self).wf(),
        ensures
            final(self).wf(),
            final(self)@ == old(self)@.insert(key, data),
    {
        match self.root.take() {
            Some(box_to_node) => {
                self.root = Some(crate::node::insert(key, data, box_to_node));
            },
            None => {
                let n = Box::new(Node::new(key, data));
                proof {
                    assert(crate::node::sub_map(Some(n)) =~= crate::node::sub_map(
                        None::<Box<Node<V>>>,
                    ).insert(key, data));
                }
                self.root = Some(n);
            },
        }
    }

    /// Remove the binding for `key` from the tree; absent keys are left
    /// alone.
    pub fn delete(&mut self, key: u64)
        requires
            old(self).wf(),
        ensures
            final(self).wf(),
            final(self)@ == old(self)@.remove(key),
    {
        match self.root.take() {
            Some(box_to_node) => {
                self.root = crate::node::delete(key, box_to_node);
            },
            None => {
                proof {
                    assert(crate::node::sub_map(None::<Box<Node<V>>>)
                        =~= crate::node::sub_map(None::<Box<Node<V>>>).remove(key));
                }
            },
        }
    }

    /// The value stored under `key`, if the key is present.
    pub fn get(&self, key: u64) -> (r: Option<&V>)
        requires
            self.wf(),
        ensures
            match r {
                Some(v) => self@.dom().contains(key) && *v == self@[key],
                None => !self@.dom().contains(key),
            },
    {
        match &self.root {
            Some(box_to_node) => crate::node::search(&key, box_to_node),
            None => None,
        }
    }

    /// The value stored under `key`, or `default` if the key is absent.
    pub fn get_or<'a>(&'a self, key: u64, default: &'a V) -> (r: &'a V)
        requires
            self.wf(),
        ensures
            *r == if self@.dom().contains(key) {
                self@[key]
            } else {
                *default
            },
    {
        match self.get(key) {
            Some(data) => data,
            None => default,
        }
    }

    /// Whether the tree holds a binding for `key`.
    pub fn contains(&self, key: u64) -> (r: bool)
        requires
            self.wf(),
        ensures
            r == self@.dom().contains(key),
    {
        self.get(key).is_some()
    }

    /// Whether the tree holds no binding at all.
    pub fn empty(&self) -> (r: bool)
        ensures
            r == (self@ == Map::<u64, V>::empty()),
    {
        let r = self.root.is_none();
        proof {
            match &self.root {
                Some(n) => {
                    assert(self@.dom().contains(n.key));
                    assert(!Map::<u64, V>::empty().dom().contains(n.key));
                },
                None => {
                    assert(self@ =~= Map::<u64, V>::empty());
                },
            }
        }
        r
    }

    /// The key/value pair with the smallest key, or nothing when the
    /// tree is empty.
    pub fn min<'a>(&'a self) -> (r: Option<(&'a u64, &'a V)>)
        requires
            self.wf(),
        ensures
            match r {
                Some(p) => {
                    &&& self@.dom().contains(*p.0)
                    &&& *p.1 == self@[*p.0]
                    &&& forall|k: u64| self@.dom().contains(k) ==> *p.0 <= k
                },
                None => self@ == Map::<u64, V>::empty(),
            },
    {
        match &self.root {
            Some(root) => Some(crate::node::min_pair(root)),
            None => {
                proof {
                    assert(self@ =~= Map::<u64, V>::empty());
                }
                None
            },
        }
    }

    /// The key/value pair with the largest key, or nothing when the
    /// tree is empty.
    pub fn max<'a>(&'a self) -> (r: Option<(&'a u64, &'a V)>)
        requires
            self.wf(),
        ensures
            match r {
                Some(p) => {
                    &&& self@.dom().contains(*p.0)
                    &&& *p.1 == self@[*p.0]
                    &&& forall|k: u64| self@.dom().contains(k) ==> *p.0 >= k
                },
                None => self@ == Map::<u64, V>::empty(),
            },
    {
        match &self.root {
            Some(root) => Some(crate::node::max_pair(root)),
            None => {
                proof {
                    assert(self@ =~= Map::<u64, V>::empty());
                }
                None
            },
        }
    }

    /// A read-only cursor over all key/value pairs, in ascending key
    /// order.
    pub fn iter<'a>(&'a self) -> (it: crate::iterators::RangePairIter<'a, V>)
        requires
            self.wf(),
        ensures
            it.wf(),
            it.tree == self,
            it.from is Unbounded,
            it.to is Unbounded,
            it.prev is None,
            it.yielded@ == Seq::<u64>::empty(),
    {
        crate::iterators::RangePairIter::new(
            self,
            crate::iterators::Bound::Unbounded,
            crate::iterators::Bound::Unbounded,
        )
    }

    /// A read-only cursor over the key/value pairs whose keys lie
    /// between the two bounds, in ascending key order.
    pub fn range<'a>(&'a self, min: crate::iterators::Bound, max: crate::iterators::Bound) -> (it:
        crate::iterators::RangePairIter<'a, V>)
        requires
            self.wf(),
        ensures
            it.wf(),
            it.tree == self,
            it.from == min,
            it.to == max,
            it.prev is None,
            it.yielded@ == Seq::<u64>::empty(),
    {
        crate::iterators::RangePairIter::new(self, min, max)
    }

    /// Whether the root node passes the local sortedness and height
    /// checks; on a well-formed tree this is always the case.
    pub fn test_avl_tree(&self) -> (r: bool)
        requires
            self.wf(),
        ensures
            r,
    {
        let r = crate::node::is_avl_tree(&self.root);
        proof {
            match &self.root {
                Some(n) => {
                    crate::node::lemma_avl_cache(n.left);
                    crate::node::lemma_avl_cache(n.right);
                    if n.left is Some {
                        assert(crate::node::sub_map(n.left).dom().contains(
                            n.left.unwrap().key,
                        ));
                    }
                    if n.right is Some {
                        assert(crate::node::sub_map(n.right).dom().contains(
                            n.right.unwrap().key,
                        ));
                    }
                },
                None => {},
            }
        }
        r
    }
}

} // verus!
