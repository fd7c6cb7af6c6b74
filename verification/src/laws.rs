//! Laws relating several operations of the library, stated and proved
//! over the abstract views that the operations' own contracts use.

use vstd::prelude::*;
use crate::tree::AVLTree;
use crate::iterators::RangePairIter;
use crate::iterators::in_range;
use crate::iterators::upper_ok;
use crate::iterators::Bound;
use crate::node::sub_map;

verus! {

/// Inserting under the same key twice leaves exactly one entry, holding
/// the later value, and the second insertion changes no key count: the
/// tree after both insertions looks exactly like a tree after a single
/// insertion of the later value.
pub proof fn lemma_insert_overwrite<V>(
    t0: AVLTree<V>,
    t1: AVLTree<V>,
    t2: AVLTree<V>,
    key: u64,
    v1: V,
    v2: V,
)
    requires
        t1@ == t0@.insert(key, v1),
        t2@ == t1@.insert(key, v2),
    ensures
        t2@ == t0@.insert(key, v2),
        t2@.dom() == t1@.dom(),
        t2@.dom().contains(key),
        t2@[key] == v2,
{
    assert(t2@ =~= t0@.insert(key, v2));
    assert(t2@.dom() =~= t1@.dom());
}

/// After a deletion the deleted key is gone, while every other key is
/// still present and still bound to its old value.
pub proof fn lemma_delete_completeness<V>(t0: AVLTree<V>, t1: AVLTree<V>, key: u64)
    requires
        t1@ == t0@.remove(key),
    ensures
        !t1@.dom().contains(key),
        forall|k: u64| k != key ==> t1@.dom().contains(k) == t0@.dom().contains(k),
        forall|k: u64| k != key && t0@.dom().contains(k) ==> t1@[k] == t0@[k],
{
}

/// An exhausted cursor has yielded every key of the tree inside its
/// bounds exactly once: the yielded keys are distinct and their number
/// equals the number of in-range keys; over an unbounded range, the
/// number of all stored keys.
pub proof fn lemma_exhausted_range<'a, V>(it: RangePairIter<'a, V>)
    requires
        it.wf(),
        forall|k: u64|
            sub_map(it.tree.root).dom().contains(k) && in_range(it.from, it.to, k)
                ==> it.yielded@.contains(k),
    ensures
        it.yielded@.no_duplicates(),
        it.yielded@.to_set() == Set::new(
            |k: u64| sub_map(it.tree.root).dom().contains(k) && in_range(it.from, it.to, k),
        ),
        it.yielded@.len() == Set::new(
            |k: u64| sub_map(it.tree.root).dom().contains(k) && in_range(it.from, it.to, k),
        ).len(),
        it.from is Unbounded && it.to is Unbounded ==> it.yielded@.len() == sub_map(
            it.tree.root,
        ).dom().len(),
        sub_map(it.tree.root).dom().finite(),
{
    broadcast use vstd::set::group_set_axioms;

    crate::node::lemma_sub_map_finite(it.tree.root);

    let y = it.yielded@;
    let range_set = Set::new(
        |k: u64| sub_map(it.tree.root).dom().contains(k) && in_range(it.from, it.to, k),
    );
    assert forall|i: int, j: int|
        0 <= i < y.len() && 0 <= j < y.len() && i != j implies y[i] != y[j] by {
        if i < j {
            assert(y[i] < y[j]);
        } else {
            assert(y[j] < y[i]);
        }
    }
    assert(y.no_duplicates());
    assert forall|x: u64| y.to_set().contains(x) implies range_set.contains(x) by {
        assert(y.contains(x));
        let i = choose|i: int| 0 <= i < y.len() && y[i] == x;
        match it.prev {
            Some(p) => {
                if i < y.len() - 1 {
                    assert(y[i] < y[y.len() - 1]);
                }
                assert(x <= p);
                assert(upper_ok(it.to, p));
                match it.to {
                    Bound::Included(u) => {},
                    Bound::Excluded(u) => {},
                    Bound::Unbounded => {},
                }
                assert(upper_ok(it.to, x));
            },
            None => {
                assert(false);
            },
        }
    }
    assert forall|x: u64| range_set.contains(x) implies y.to_set().contains(x) by {
        assert(y.contains(x));
    }
    assert(y.to_set() =~= range_set);
    y.unique_seq_to_set();
    if it.from is Unbounded && it.to is Unbounded {
        assert(range_set =~= sub_map(it.tree.root).dom());
    }
}

} // verus!
