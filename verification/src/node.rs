//! The tree nodes, the balance engine, and the mutation and query
//! algorithms, as free functions over owned subtrees.

use vstd::prelude::*;
use vstd::string::StringExecFns;

verus! {

/// A single tree vertex: a key, its value, the cached subtree height,
/// and the optional left and right child subtrees, owned exclusively.
pub struct Node<V> {
    pub key: u64,
    pub data: V,
    pub height: u32,
    pub left: Option<Box<Node<V>>>,
    pub right: Option<Box<Node<V>>>,
}

impl<V> Node<V> {
    /// A fresh leaf holding `key` and `data`.
    pub fn new(key: u64, data: V) -> (n: Node<V>)
        ensures
            n.key == key,
            n.data == data,
            n.height == 1,
            n.left is None,
            n.right is None,
    {
        Node { key, data, height: 1, left: None, right: None }
    }
}

/// The abstract contents of a subtree, as a map from keys to values.
pub open spec fn sub_map<V>(t: Option<Box<Node<V>>>) -> Map<u64, V>
    decreases t,
{
    match t {
        None => Map::empty(),
        Some(n) => sub_map(n.left).union_prefer_right(sub_map(n.right)).insert(n.key, n.data),
    }
}

/// The larger of two natural numbers.
pub open spec fn max_nat(a: nat, b: nat) -> nat {
    if a >= b {
        a
    } else {
        b
    }
}

/// The true height of a subtree: 0 when absent, otherwise one more than
/// the taller child.
pub open spec fn ht<V>(t: Option<Box<Node<V>>>) -> nat
    decreases t,
{
    match t {
        None => 0,
        Some(n) => 1 + max_nat(ht(n.left), ht(n.right)),
    }
}

/// The cached height field at the root of a subtree, 0 when absent.
pub open spec fn cached_ht<V>(t: Option<Box<Node<V>>>) -> nat {
    match t {
        None => 0,
        Some(n) => n.height as nat,
    }
}

/// The binary-search-tree ordering invariant: at every node, all keys in
/// the left subtree are strictly smaller than the node's key and all keys
/// in the right subtree are strictly greater.
pub open spec fn sorted<V>(t: Option<Box<Node<V>>>) -> bool
    decreases t,
{
    match t {
        None => true,
        Some(n) => {
            &&& sorted(n.left)
            &&& sorted(n.right)
            &&& forall|k: u64| sub_map(n.left).dom().contains(k) ==> k < n.key
            &&& forall|k: u64| sub_map(n.right).dom().contains(k) ==> k > n.key
        },
    }
}

/// The AVL invariant: at every node the cached height equals the true
/// height and the children's heights differ by at most one.
pub open spec fn avl<V>(t: Option<Box<Node<V>>>) -> bool
    decreases t,
{
    match t {
        None => true,
        Some(n) => {
            &&& avl(n.left)
            &&& avl(n.right)
            &&& n.height as int == 1 + max_nat(ht(n.left), ht(n.right))
            &&& -1 <= ht(n.left) - ht(n.right) <= 1
        },
    }
}

/// A well-formed subtree: sorted and height-balanced.
pub open spec fn wf<V>(t: Option<Box<Node<V>>>) -> bool {
    sorted(t) && avl(t)
}

/// The number of nodes in a subtree.
pub open spec fn cnt<V>(t: Option<Box<Node<V>>>) -> nat
    decreases t,
{
    match t {
        None => 0,
        Some(n) => 1 + cnt(n.left) + cnt(n.right),
    }
}

/// In a sorted subtree whose keys all lie strictly between `lo` and `hi`,
/// there are at most `hi - lo - 1` nodes: the root key splits the interval
/// and the children recurse on the two halves.
proof fn lemma_cnt_bound<V>(t: Option<Box<Node<V>>>, lo: int, hi: int)
    requires
        sorted(t),
        lo < hi,
        forall|k: u64| sub_map(t).dom().contains(k) ==> lo < k < hi,
    ensures
        cnt(t) <= hi - lo - 1,
    decreases t,
{
    match t {
        None => {},
        Some(n) => {
            assert(sub_map(t).dom().contains(n.key));
            assert forall|k: u64| sub_map(n.left).dom().contains(k) implies lo < k < n.key by {
                assert(sub_map(t).dom().contains(k));
            }
            assert forall|k: u64| sub_map(n.right).dom().contains(k) implies n.key < k < hi by {
                assert(sub_map(t).dom().contains(k));
            }
            lemma_cnt_bound(n.left, lo, n.key as int);
            lemma_cnt_bound(n.right, n.key as int, hi);
        },
    }
}

/// A lower bound for the node count of a balanced tree of height `h`;
/// it doubles with every two levels.
pub open spec fn pw(h: nat) -> nat
    decreases h,
{
    if h <= 1 {
        1
    } else {
        2 * pw((h - 2) as nat)
    }
}

proof fn lemma_pw_pos(h: nat)
    ensures
        pw(h) >= 1,
    decreases h,
{
    if h > 1 {
        lemma_pw_pos((h - 2) as nat);
    }
}

proof fn lemma_pw_mono(a: nat, b: nat)
    requires
        a <= b,
    ensures
        pw(a) <= pw(b),
    decreases b,
{
    if b <= 1 {
    } else if a <= 1 {
        lemma_pw_pos(b);
    } else {
        lemma_pw_mono((a - 2) as nat, (b - 2) as nat);
    }
}

/// A balanced tree of height `h` has at least `pw(h) - 1` nodes.
proof fn lemma_avl_cnt<V>(t: Option<Box<Node<V>>>)
    requires
        avl(t),
    ensures
        pw(ht(t)) <= cnt(t) + 1,
    decreases t,
{
    match t {
        None => {},
        Some(n) => {
            lemma_avl_cnt(n.left);
            lemma_avl_cnt(n.right);
            if ht(t) > 1 {
                lemma_pw_mono((ht(t) - 2) as nat, ht(n.left));
                lemma_pw_mono((ht(t) - 2) as nat, ht(n.right));
            }
        },
    }
}

proof fn lemma_pw_pow2(k: nat)
    ensures
        pw(2 * k) == vstd::arithmetic::power2::pow2(k),
    decreases k,
{
    if k == 0 {
        assert(vstd::arithmetic::power2::pow2(0) == 1) by {
            vstd::arithmetic::power::lemma_pow0(2);
        }
    } else {
        vstd::arithmetic::power2::lemma_pow2_unfold(k);
        lemma_pw_pow2((k - 1) as nat);
    }
}

/// A well-formed tree cannot be taller than 129: its keys are distinct
/// `u64` values, so it has at most `2^64` nodes, while a balanced tree of
/// height 130 would need more.
pub proof fn lemma_height_bound<V>(t: Option<Box<Node<V>>>)
    requires
        sorted(t),
        avl(t),
    ensures
        ht(t) <= 129,
{
    lemma_avl_cnt(t);
    lemma_cnt_bound(t, -1, 0x1_0000_0000_0000_0000);
    if ht(t) >= 130 {
        lemma_pw_mono(130, ht(t));
        lemma_pw_pow2(65);
        vstd::arithmetic::power2::lemma_pow2_strictly_increases(64, 65);
        vstd::arithmetic::power2::lemma2_to64();
    }
}

/// The contents of a subtree form a finite map.
pub proof fn lemma_sub_map_finite<V>(t: Option<Box<Node<V>>>)
    ensures
        sub_map(t).dom().finite(),
    decreases t,
{
    broadcast use vstd::set::group_set_axioms;

    match t {
        None => {
            assert(sub_map(t).dom() =~= Set::<u64>::empty());
        },
        Some(n) => {
            lemma_sub_map_finite(n.left);
            lemma_sub_map_finite(n.right);
            assert(sub_map(t).dom() =~= sub_map(n.left).dom().union(sub_map(n.right).dom()).insert(
                n.key,
            ));
        },
    }
}

/// The cached height of the given optional subtree root.
pub fn height<V>(node: &Option<Box<Node<V>>>) -> (h: u32)
    ensures
        h as nat == cached_ht(*node),
{
    match node {
        None => 0,
        Some(n) => n.height,
    }
}

/// Apply whichever rotation the height difference at `root` calls for:
/// none when the subtree is already balanced, the left-heavy repair at a
/// difference of two, the right-heavy repair at minus two.
pub fn rotate_if_necessary<V>(root: Box<Node<V>>) -> (r: Box<Node<V>>)
    requires
        sorted(Some(root)),
        avl(root.left),
        avl(root.right),
        root.height as int == 1 + max_nat(ht(root.left), ht(root.right)),
        -2 <= ht(root.left) - ht(root.right) <= 2,
    ensures
        sorted(Some(r)),
        avl(Some(r)),
        sub_map(Some(r)) == sub_map(Some(root)),
        ht(Some(root)) - 1 <= ht(Some(r)) <= ht(Some(root)),
        -1 <= ht(root.left) - ht(root.right) <= 1 ==> r == root,
{
    proof {
        lemma_avl_cache(root.left);
        lemma_avl_cache(root.right);
        lemma_height_bound(root.left);
        lemma_height_bound(root.right);
    }
    let diff = diff_of_successors_height(&root);
    if -1 <= diff && diff <= 1 {
        return root;
    }
    if diff == 2 {
        proof {
            if root.left is None {
                assert(ht(root.left) == 0);
            }
        }
        rotate_left_successor(root)
    } else {
        proof {
            if root.right is None {
                assert(ht(root.right) == 0);
            }
        }
        rotate_right_successor(root)
    }
}

/// Refresh the cached height of `root` and rebalance it; the children
/// must already be well-formed and within two levels of each other.
pub fn updated_node<V>(root: Box<Node<V>>) -> (r: Box<Node<V>>)
    requires
        sorted(Some(root)),
        avl(root.left),
        avl(root.right),
        -2 <= ht(root.left) - ht(root.right) <= 2,
    ensures
        sorted(Some(r)),
        avl(Some(r)),
        sub_map(Some(r)) == sub_map(Some(root)),
        ht(Some(root)) - 1 <= ht(Some(r)) <= ht(Some(root)),
        -1 <= ht(root.left) - ht(root.right) <= 1 ==> ht(Some(r)) == ht(Some(root)),
{
    proof {
        lemma_avl_cache(root.left);
        lemma_avl_cache(root.right);
        lemma_height_bound(root.left);
        lemma_height_bound(root.right);
    }
    let mut root = root;
    update_height(&mut *root);
    rotate_if_necessary(root)
}

/// Refresh the cached height of `root` from its children's cached
/// heights; both children's caches must already be current.
pub fn update_height<V>(root: &mut Node<V>)
    requires
        cached_ht(old(root).left) == ht(old(root).left),
        cached_ht(old(root).right) == ht(old(root).right),
        ht(old(root).left) < 0xffff_ffff,
        ht(old(root).right) < 0xffff_ffff,
    ensures
        final(root).key == old(root).key,
        final(root).data == old(root).data,
        final(root).left == old(root).left,
        final(root).right == old(root).right,
        final(root).height as int == 1 + max_nat(ht(old(root).left), ht(old(root).right)),
{
    let hl = height(&root.left);
    let hr = height(&root.right);
    root.height = if hl >= hr {
        hl + 1
    } else {
        hr + 1
    };
}

/// In a subtree satisfying the AVL invariant the cached root height
/// agrees with the true height.
pub proof fn lemma_avl_cache<V>(t: Option<Box<Node<V>>>)
    requires
        avl(t),
    ensures
        cached_ht(t) == ht(t),
{
    match t {
        None => {},
        Some(n) => {},
    }
}

/// Perform a single right rotation on this (sub)tree: the left child is
/// promoted to the root, the old root becomes its right child, and the
/// left child's displaced right subtree is reattached as the old root's
/// new left subtree. Keys, values and sort order are unchanged.
pub fn rotate_right<V>(root: Box<Node<V>>) -> (r: Box<Node<V>>)
    requires
        root.left is Some,
        sorted(Some(root)),
        ({
            let li = root.left.unwrap();
            &&& cached_ht(li.left) == ht(li.left)
            &&& cached_ht(li.right) == ht(li.right)
            &&& cached_ht(root.right) == ht(root.right)
            &&& ht(li.left) < 0xfffe_0000
            &&& ht(li.right) < 0xfffe_0000
            &&& ht(root.right) < 0xfffe_0000
        }),
    ensures
        ({
            let li = root.left.unwrap();
            &&& r.key == li.key
            &&& r.data == li.data
            &&& r.left == li.left
            &&& r.right is Some
            &&& r.right.unwrap().key == root.key
            &&& r.right.unwrap().data == root.data
            &&& r.right.unwrap().left == li.right
            &&& r.right.unwrap().right == root.right
            &&& r.right.unwrap().height as int == 1 + max_nat(ht(li.right), ht(root.right))
            &&& r.height as int == 1 + max_nat(ht(li.left), ht(r.right))
        }),
        sorted(Some(r)),
        sub_map(Some(r)) == sub_map(Some(root)),
{
    let ghost orig = root;
    let ghost li = root.left.unwrap();
    proof {
        assert(sorted(Some(li)));
    }
    let mut root = root;
    let mut new_root = root.left.take().unwrap();
    root.left = new_root.right.take();
    update_height(&mut *root);
    new_root.right = Some(root);
    update_height(&mut *new_root);
    proof {
        lemma_rotation_sorted_right(orig, *new_root);
    }
    new_root
}

/// The reassembled tree after a right rotation is still sorted and holds
/// the same map; `orig` is the tree before, `r` the tree after.
proof fn lemma_rotation_sorted_right<V>(orig: Box<Node<V>>, r: Node<V>)
    requires
        orig.left is Some,
        sorted(Some(orig)),
        ({
            let li = orig.left.unwrap();
            &&& r.key == li.key
            &&& r.data == li.data
            &&& r.left == li.left
            &&& r.right is Some
            &&& r.right.unwrap().key == orig.key
            &&& r.right.unwrap().data == orig.data
            &&& r.right.unwrap().left == li.right
            &&& r.right.unwrap().right == orig.right
        }),
    ensures
        sorted(Some(Box::new(r))),
        sub_map(Some(Box::new(r))) == sub_map(Some(orig)),
{
    let li = orig.left.unwrap();
    let inner = r.right.unwrap();
    assert(sorted(Some(li)));
    assert(sorted(li.left) && sorted(li.right));
    assert(sub_map(Some(li)) == sub_map(li.left).union_prefer_right(sub_map(li.right)).insert(
        li.key,
        li.data,
    ));
    assert(sub_map(orig.left).dom().contains(li.key));
    assert(li.key < orig.key);
    // Keys of the detached middle subtree sit between the two root keys.
    assert forall|k: u64| sub_map(li.right).dom().contains(k) implies li.key < k < orig.key by {
        assert(sub_map(orig.left).dom().contains(k));
    }
    assert forall|k: u64| sub_map(li.left).dom().contains(k) implies k < li.key by {
        assert(sub_map(orig.left).dom().contains(k));
    }
    // Sortedness of the new inner node (the demoted old root).
    assert(sorted(Some(inner)));
    assert(sub_map(Some(inner)) == sub_map(li.right).union_prefer_right(
        sub_map(orig.right),
    ).insert(orig.key, orig.data));
    // Everything under the new right child is larger than the new root key.
    assert forall|k: u64| sub_map(r.right).dom().contains(k) implies k > r.key by {
        if k != orig.key {
            if sub_map(li.right).dom().contains(k) {
            } else {
                assert(sub_map(orig.right).dom().contains(k));
            }
        }
    }
    assert(sorted(Some(Box::new(r))));
    assert(sub_map(Some(Box::new(r))) =~= sub_map(Some(orig)));
}

/// Perform a single left rotation on this (sub)tree: the mirror image of
/// `rotate_right`.
pub fn rotate_left<V>(root: Box<Node<V>>) -> (r: Box<Node<V>>)
    requires
        root.right is Some,
        sorted(Some(root)),
        ({
            let ri = root.right.unwrap();
            &&& cached_ht(ri.left) == ht(ri.left)
            &&& cached_ht(ri.right) == ht(ri.right)
            &&& cached_ht(root.left) == ht(root.left)
            &&& ht(ri.left) < 0xfffe_0000
            &&& ht(ri.right) < 0xfffe_0000
            &&& ht(root.left) < 0xfffe_0000
        }),
    ensures
        ({
            let ri = root.right.unwrap();
            &&& r.key == ri.key
            &&& r.data == ri.data
            &&& r.right == ri.right
            &&& r.left is Some
            &&& r.left.unwrap().key == root.key
            &&& r.left.unwrap().data == root.data
            &&& r.left.unwrap().right == ri.left
            &&& r.left.unwrap().left == root.left
            &&& r.left.unwrap().height as int == 1 + max_nat(ht(root.left), ht(ri.left))
            &&& r.height as int == 1 + max_nat(ht(r.left), ht(ri.right))
        }),
        sorted(Some(r)),
        sub_map(Some(r)) == sub_map(Some(root)),
{
    let ghost orig = root;
    let ghost ri = root.right.unwrap();
    proof {
        assert(sorted(Some(ri)));
    }
    let mut root = root;
    let mut new_root = root.right.take().unwrap();
    root.right = new_root.left.take();
    update_height(&mut *root);
    new_root.left = Some(root);
    update_height(&mut *new_root);
    proof {
        lemma_rotation_sorted_left(orig, *new_root);
    }
    new_root
}

/// The mirror of `lemma_rotation_sorted_right`.
proof fn lemma_rotation_sorted_left<V>(orig: Box<Node<V>>, r: Node<V>)
    requires
        orig.right is Some,
        sorted(Some(orig)),
        ({
            let ri = orig.right.unwrap();
            &&& r.key == ri.key
            &&& r.data == ri.data
            &&& r.right == ri.right
            &&& r.left is Some
            &&& r.left.unwrap().key == orig.key
            &&& r.left.unwrap().data == orig.data
            &&& r.left.unwrap().right == ri.left
            &&& r.left.unwrap().left == orig.left
        }),
    ensures
        sorted(Some(Box::new(r))),
        sub_map(Some(Box::new(r))) == sub_map(Some(orig)),
{
    let ri = orig.right.unwrap();
    let inner = r.left.unwrap();
    assert(sorted(Some(ri)));
    assert(sorted(ri.left) && sorted(ri.right));
    assert(sub_map(Some(ri)) == sub_map(ri.left).union_prefer_right(sub_map(ri.right)).insert(
        ri.key,
        ri.data,
    ));
    assert(sub_map(orig.right).dom().contains(ri.key));
    assert(ri.key > orig.key);
    // Keys of the detached middle subtree sit between the two root keys.
    assert forall|k: u64| sub_map(ri.left).dom().contains(k) implies orig.key < k < ri.key by {
        assert(sub_map(orig.right).dom().contains(k));
    }
    assert forall|k: u64| sub_map(ri.right).dom().contains(k) implies k > ri.key by {
        assert(sub_map(orig.right).dom().contains(k));
    }
    // Sortedness of the new inner node (the demoted old root).
    assert(sorted(Some(inner)));
    assert(sub_map(Some(inner)) == sub_map(orig.left).union_prefer_right(
        sub_map(ri.left),
    ).insert(orig.key, orig.data));
    // Everything under the new left child is smaller than the new root key.
    assert forall|k: u64| sub_map(r.left).dom().contains(k) implies k < r.key by {
        if k != orig.key {
            if sub_map(ri.left).dom().contains(k) {
            } else {
                assert(sub_map(orig.left).dom().contains(k));
            }
        }
    }
    assert(sorted(Some(Box::new(r))));
    assert(sub_map(Some(Box::new(r))) =~= sub_map(Some(orig)));
}

/// Repair a left-heavy root (left child two levels taller than the right
/// child). If the left child is itself right-heavy — the zig-zag case —
/// it is first rotated left; a right rotation of the root then restores
/// the AVL invariant. The subtree's height shrinks by one or stays.
pub fn rotate_left_successor<V>(root: Box<Node<V>>) -> (r: Box<Node<V>>)
    requires
        root.left is Some,
        sorted(Some(root)),
        avl(root.left),
        avl(root.right),
        ht(root.left) - ht(root.right) == 2,
    ensures
        sorted(Some(r)),
        avl(Some(r)),
        sub_map(Some(r)) == sub_map(Some(root)),
        ht(Some(root)) - 1 <= ht(Some(r)) <= ht(Some(root)),
{
    let ghost orig = root;
    let ghost li = root.left.unwrap();
    proof {
        assert(sorted(Some(li)) && avl(Some(li)));
        lemma_height_bound(li.left);
        lemma_height_bound(li.right);
        lemma_height_bound(orig.right);
        lemma_avl_cache(li.left);
        lemma_avl_cache(li.right);
        lemma_avl_cache(orig.right);
    }
    let mut root = root;
    let left = root.left.take().unwrap();
    if height(&left.left) < height(&left.right) {
        proof {
            if li.right is None {
                assert(ht(li.right) == 0);
            }
            let lr = li.right.unwrap();
            assert(sorted(Some(lr)) && avl(Some(lr)));
            lemma_height_bound(lr.left);
            lemma_height_bound(lr.right);
            lemma_avl_cache(lr.left);
            lemma_avl_cache(lr.right);
        }
        let rotated = rotate_left(left);
        root.left = Some(rotated);
        update_height(&mut *root);
    } else {
        root.left = Some(left);
    }
    let res = rotate_right(root);
    proof {
        let lr = li.right.unwrap();
        let inner = res.right.unwrap();
        if ht(li.left) < ht(li.right) {
            // Zig-zag: the promoted grandchild splits the old left child.
            assert(avl(res.left));
            assert(avl(inner.left) && avl(inner.right));
            assert(avl(Some(inner)));
            assert(avl(Some(res)));
        } else {
            assert(avl(res.left));
            assert(avl(inner.left) && avl(inner.right));
            assert(avl(Some(inner)));
            assert(avl(Some(res)));
        }
    }
    res
}

/// Repair a right-heavy root: the mirror of `rotate_left_successor`.
pub fn rotate_right_successor<V>(root: Box<Node<V>>) -> (r: Box<Node<V>>)
    requires
        root.right is Some,
        sorted(Some(root)),
        avl(root.left),
        avl(root.right),
        ht(root.left) - ht(root.right) == -2,
    ensures
        sorted(Some(r)),
        avl(Some(r)),
        sub_map(Some(r)) == sub_map(Some(root)),
        ht(Some(root)) - 1 <= ht(Some(r)) <= ht(Some(root)),
{
    let ghost orig = root;
    let ghost ri = root.right.unwrap();
    proof {
        assert(sorted(Some(ri)) && avl(Some(ri)));
        lemma_height_bound(ri.left);
        lemma_height_bound(ri.right);
        lemma_height_bound(orig.left);
        lemma_avl_cache(ri.left);
        lemma_avl_cache(ri.right);
        lemma_avl_cache(orig.left);
    }
    let mut root = root;
    let right = root.right.take().unwrap();
    if height(&right.left) > height(&right.right) {
        proof {
            if ri.left is None {
                assert(ht(ri.left) == 0);
            }
            let rl = ri.left.unwrap();
            assert(sorted(Some(rl)) && avl(Some(rl)));
            lemma_height_bound(rl.left);
            lemma_height_bound(rl.right);
            lemma_avl_cache(rl.left);
            lemma_avl_cache(rl.right);
        }
        let rotated = rotate_right(right);
        root.right = Some(rotated);
        update_height(&mut *root);
    } else {
        root.right = Some(right);
    }
    let res = rotate_left(root);
    proof {
        let rl = ri.left.unwrap();
        let inner = res.left.unwrap();
        if ht(ri.left) > ht(ri.right) {
            assert(avl(res.right));
            assert(avl(inner.left) && avl(inner.right));
            assert(avl(Some(inner)));
            assert(avl(Some(res)));
        } else {
            assert(avl(res.right));
            assert(avl(inner.left) && avl(inner.right));
            assert(avl(Some(inner)));
            assert(avl(Some(res)));
        }
    }
    res
}

/// The height difference `height(left) - height(right)` at `root`.
pub fn diff_of_successors_height<V>(root: &Box<Node<V>>) -> (d: i32)
    requires
        cached_ht(root.left) == ht(root.left),
        cached_ht(root.right) == ht(root.right),
        ht(root.left) < 0x8000_0000,
        ht(root.right) < 0x8000_0000,
    ensures
        d as int == ht(root.left) - ht(root.right),
{
    let l = height(&root.left);
    let r = height(&root.right);
    (l as i32) - (r as i32)
}

/// Recursively insert the (key, value) pair into the given optional
/// child subtree and return its new, never absent, value.
pub fn insert_in_successor<V>(key: u64, data: V, successor: Option<Box<Node<V>>>) -> (r: Option<
    Box<Node<V>>,
>)
    requires
        wf(successor),
    ensures
        r is Some,
        wf(r),
        sub_map(r) == sub_map(successor).insert(key, data),
        ht(successor) <= ht(r) <= ht(successor) + 1,
        ht(r) >= 1,
    decreases successor,
{
    match successor {
        Some(succ) => Some(insert(key, data, succ)),
        None => {
            let n = Box::new(Node::new(key, data));
            proof {
                assert(sub_map(Some(n)) =~= sub_map(
                    None::<Box<Node<V>>>,
                ).insert(key, data));
            }
            Some(n)
        },
    }
}

/// Insert `value` under `key` in the subtree `root`, overwriting the old
/// value if the key is already present. The returned subtree holds the
/// old contents plus the new binding, is still sorted and balanced, and
/// grows in height by at most one.
pub fn insert<V>(key: u64, data: V, root: Box<Node<V>>) -> (r: Box<Node<V>>)
    requires
        wf(Some(root)),
    ensures
        wf(Some(r)),
        sub_map(Some(r)) == sub_map(Some(root)).insert(key, data),
        ht(Some(root)) <= ht(Some(r)) <= ht(Some(root)) + 1,
    decreases root,
{
    let ghost orig = root;
    let mut root = root;
    if key == root.key {
        root.data = data;
        proof {
            assert(!sub_map(orig.left).dom().contains(key));
            assert(!sub_map(orig.right).dom().contains(key));
            assert(sub_map(Some(root)) =~= sub_map(Some(orig)).insert(key, data));
        }
        root
    } else if key > root.key {
        proof {
            assert(sorted(orig.right) && avl(orig.right));
            lemma_avl_cache(orig.left);
            lemma_height_bound(orig.left);
        }
        let r0 = root.right.take();
        root.right = insert_in_successor(key, data, r0);
        proof {
            lemma_avl_cache(root.right);
            lemma_height_bound(root.right);
            assert forall|k: u64| sub_map(root.right).dom().contains(k) implies k
                > root.key by {
                if k != key {
                    assert(sub_map(orig.right).dom().contains(k));
                }
            }
            assert(sorted(Some(root)));
            assert(sub_map(Some(root)) =~= sub_map(Some(orig)).insert(key, data));
        }
        update_height(&mut *root);
        proof {
            assert(sub_map(Some(root)) =~= sub_map(Some(orig)).insert(key, data));
        }
        rotate_if_necessary(root)
    } else {
        proof {
            assert(sorted(orig.left) && avl(orig.left));
            lemma_avl_cache(orig.right);
            lemma_height_bound(orig.right);
        }
        let l0 = root.left.take();
        root.left = insert_in_successor(key, data, l0);
        proof {
            lemma_avl_cache(root.left);
            lemma_height_bound(root.left);
            assert forall|k: u64| sub_map(root.left).dom().contains(k) implies k
                < root.key by {
                if k != key {
                    assert(sub_map(orig.left).dom().contains(k));
                }
            }
            assert(sorted(Some(root)));
            assert(!sub_map(orig.right).dom().contains(key));
            assert(sub_map(Some(root)) =~= sub_map(Some(orig)).insert(key, data));
        }
        update_height(&mut *root);
        proof {
            assert(sub_map(Some(root)) =~= sub_map(Some(orig)).insert(key, data));
        }
        rotate_if_necessary(root)
    }
}

/// Return a read-only reference to the key and value stored under `key`
/// in the subtree `root`, if the key is present.
pub fn search_pair<'a, V>(key: &u64, root: &'a Box<Node<V>>) -> (r: Option<(&'a u64, &'a V)>)
    requires
        sorted(Some(*root)),
    ensures
        match r {
            Some(p) => {
                &&& sub_map(Some(*root)).dom().contains(*key)
                &&& *p.0 == *key
                &&& *p.1 == sub_map(Some(*root))[*key]
            },
            None => !sub_map(Some(*root)).dom().contains(*key),
        },
    decreases *root,
{
    if *key == root.key {
        Some((&root.key, &root.data))
    } else if *key > root.key {
        proof {
            assert(!sub_map(root.left).dom().contains(*key));
        }
        match &root.right {
            Some(succ) => {
                let r = search_pair(key, succ);
                proof {
                    match r {
                        Some(p) => {
                            assert(sub_map(root.right).dom().contains(*key));
                            assert(sub_map(Some(*root))[*key] == sub_map(root.right)[*key]);
                        },
                        None => {
                            assert(!sub_map(Some(*root)).dom().contains(*key));
                        },
                    }
                }
                r
            },
            None => {
                proof {
                    assert(sub_map(root.right) =~= Map::<u64, V>::empty());
                }
                None
            },
        }
    } else {
        proof {
            assert(!sub_map(root.right).dom().contains(*key));
        }
        match &root.left {
            Some(succ) => {
                let r = search_pair(key, succ);
                proof {
                    match r {
                        Some(p) => {
                            assert(sub_map(root.left).dom().contains(*key));
                            assert(sub_map(Some(*root))[*key] == sub_map(root.left)[*key]);
                        },
                        None => {
                            assert(!sub_map(Some(*root)).dom().contains(*key));
                        },
                    }
                }
                r
            },
            None => {
                proof {
                    assert(sub_map(root.left) =~= Map::<u64, V>::empty());
                }
                None
            },
        }
    }
}

/// Return a read-only reference to the value stored under `key` in the
/// subtree `root`, if the key is present.
pub fn search<'a, V>(key: &u64, root: &'a Box<Node<V>>) -> (r: Option<&'a V>)
    requires
        sorted(Some(*root)),
    ensures
        match r {
            Some(v) => {
                &&& sub_map(Some(*root)).dom().contains(*key)
                &&& *v == sub_map(Some(*root))[*key]
            },
            None => !sub_map(Some(*root)).dom().contains(*key),
        },
{
    match search_pair(key, root) {
        Some(p) => Some(p.1),
        None => None,
    }
}

/// Whether `key` is stored in the subtree `root`.
pub fn contains<V>(key: &u64, root: &Box<Node<V>>) -> (r: bool)
    requires
        sorted(Some(*root)),
    ensures
        r == sub_map(Some(*root)).dom().contains(*key),
{
    search(key, root).is_some()
}

/// The leftmost key of a subtree.
pub open spec fn spec_min_key<V>(n: Node<V>) -> u64
    decreases n,
{
    match n.left {
        Some(l) => spec_min_key(*l),
        None => n.key,
    }
}

/// The rightmost key of a subtree.
pub open spec fn spec_max_key<V>(n: Node<V>) -> u64
    decreases n,
{
    match n.right {
        Some(r) => spec_max_key(*r),
        None => n.key,
    }
}

/// The minimal key/value pair within this subtree.
pub fn min_pair<'a, V>(root: &'a Box<Node<V>>) -> (r: (&'a u64, &'a V))
    requires
        sorted(Some(*root)),
    ensures
        *r.0 == spec_min_key(**root),
        sub_map(Some(*root)).dom().contains(*r.0),
        *r.1 == sub_map(Some(*root))[*r.0],
        forall|k: u64| sub_map(Some(*root)).dom().contains(k) ==> *r.0 <= k,
    decreases *root,
{
    match &root.left {
        Some(l) => {
            let r = min_pair(l);
            proof {
                assert(sub_map(root.left).dom().contains(*r.0));
                assert(*r.0 < root.key);
                assert(!sub_map(root.right).dom().contains(*r.0));
                assert forall|k: u64| sub_map(Some(*root)).dom().contains(k) implies *r.0
                    <= k by {
                    if k != root.key && !sub_map(root.left).dom().contains(k) {
                        assert(sub_map(root.right).dom().contains(k));
                    }
                }
            }
            r
        },
        None => {
            proof {
                assert forall|k: u64| sub_map(Some(*root)).dom().contains(k) implies root.key
                    <= k by {
                    if k != root.key {
                        assert(!sub_map(root.left).dom().contains(k));
                        assert(sub_map(root.right).dom().contains(k));
                    }
                }
            }
            (&root.key, &root.data)
        },
    }
}

/// The maximal key/value pair within this subtree.
pub fn max_pair<'a, V>(root: &'a Box<Node<V>>) -> (r: (&'a u64, &'a V))
    requires
        sorted(Some(*root)),
    ensures
        *r.0 == spec_max_key(**root),
        sub_map(Some(*root)).dom().contains(*r.0),
        *r.1 == sub_map(Some(*root))[*r.0],
        forall|k: u64| sub_map(Some(*root)).dom().contains(k) ==> *r.0 >= k,
    decreases *root,
{
    match &root.right {
        Some(rt) => {
            let r = max_pair(rt);
            proof {
                assert(sub_map(root.right).dom().contains(*r.0));
                assert(*r.0 > root.key);
                assert(!sub_map(root.left).dom().contains(*r.0));
                assert forall|k: u64| sub_map(Some(*root)).dom().contains(k) implies *r.0
                    >= k by {
                    if k != root.key && !sub_map(root.right).dom().contains(k) {
                        assert(sub_map(root.left).dom().contains(k));
                    }
                }
            }
            r
        },
        None => {
            proof {
                assert forall|k: u64| sub_map(Some(*root)).dom().contains(k) implies root.key
                    >= k by {
                    if k != root.key {
                        assert(!sub_map(root.right).dom().contains(k));
                        assert(sub_map(root.left).dom().contains(k));
                    }
                }
            }
            (&root.key, &root.data)
        },
    }
}

/// The value stored under the minimal key within this subtree.
pub fn min<'a, V>(root: &'a Box<Node<V>>) -> (r: &'a V)
    requires
        sorted(Some(*root)),
    ensures
        sub_map(Some(*root)).dom().contains(spec_min_key(**root)),
        *r == sub_map(Some(*root))[spec_min_key(**root)],
    decreases *root,
{
    match &root.left {
        Some(l) => {
            let r = min(l);
            proof {
                assert(sub_map(root.left).dom().contains(spec_min_key(**root)));
                assert(spec_min_key(**root) < root.key);
                assert(!sub_map(root.right).dom().contains(spec_min_key(**root)));
            }
            r
        },
        None => &root.data,
    }
}

/// The value stored under the maximal key within this subtree.
pub fn max<'a, V>(root: &'a Box<Node<V>>) -> (r: &'a V)
    requires
        sorted(Some(*root)),
    ensures
        sub_map(Some(*root)).dom().contains(spec_max_key(**root)),
        *r == sub_map(Some(*root))[spec_max_key(**root)],
    decreases *root,
{
    match &root.right {
        Some(rt) => {
            let r = max(rt);
            proof {
                assert(sub_map(root.right).dom().contains(spec_max_key(**root)));
                assert(spec_max_key(**root) > root.key);
                assert(!sub_map(root.left).dom().contains(spec_max_key(**root)));
            }
            r
        },
        None => &root.data,
    }
}

/// The smallest key strictly greater than `key` within the subtree
/// `root`, with its value; `key` itself need not be present.
pub fn min_after<'a, V>(key: &u64, root: &'a Box<Node<V>>) -> (r: Option<(&'a u64, &'a V)>)
    requires
        sorted(Some(*root)),
    ensures
        match r {
            Some(p) => {
                &&& sub_map(Some(*root)).dom().contains(*p.0)
                &&& *p.0 > *key
                &&& *p.1 == sub_map(Some(*root))[*p.0]
                &&& forall|k: u64|
                    sub_map(Some(*root)).dom().contains(k) && k > *key ==> k >= *p.0
            },
            None => forall|k: u64| sub_map(Some(*root)).dom().contains(k) ==> k <= *key,
        },
    decreases *root,
{
    if root.key == *key {
        match &root.right {
            Some(succ) => {
                let p = min_pair(succ);
                proof {
                    assert(sub_map(root.right).dom().contains(*p.0));
                    assert(!sub_map(root.left).dom().contains(*p.0));
                    assert forall|k: u64|
                        sub_map(Some(*root)).dom().contains(k) && k > *key implies k
                        >= *p.0 by {
                        if k != root.key && !sub_map(root.left).dom().contains(k) {
                            assert(sub_map(root.right).dom().contains(k));
                        }
                    }
                }
                Some(p)
            },
            None => {
                proof {
                    assert forall|k: u64| sub_map(Some(*root)).dom().contains(k) implies k
                        <= *key by {
                        if k != root.key {
                            assert(!sub_map(root.right).dom().contains(k));
                            assert(sub_map(root.left).dom().contains(k));
                        }
                    }
                }
                None
            },
        }
    } else if root.key < *key {
        match &root.right {
            Some(succ) => {
                let r = min_after(key, succ);
                proof {
                    match r {
                        Some(p) => {
                            assert(sub_map(root.right).dom().contains(*p.0));
                            assert(!sub_map(root.left).dom().contains(*p.0));
                            assert forall|k: u64|
                                sub_map(Some(*root)).dom().contains(k) && k > *key implies k
                                >= *p.0 by {
                                if k != root.key && !sub_map(root.left).dom().contains(k) {
                                    assert(sub_map(root.right).dom().contains(k));
                                }
                            }
                        },
                        None => {
                            assert forall|k: u64| sub_map(Some(*root)).dom().contains(
                                k,
                            ) implies k <= *key by {
                                if k != root.key && !sub_map(root.right).dom().contains(k) {
                                    assert(sub_map(root.left).dom().contains(k));
                                }
                            }
                        },
                    }
                }
                r
            },
            None => {
                proof {
                    assert forall|k: u64| sub_map(Some(*root)).dom().contains(k) implies k
                        <= *key by {
                        if k != root.key {
                            assert(!sub_map(root.right).dom().contains(k));
                            assert(sub_map(root.left).dom().contains(k));
                        }
                    }
                }
                None
            },
        }
    } else {
        match &root.left {
            Some(succ) => {
                let rec = min_after(key, succ);
                match rec {
                    Some(p) => {
                        proof {
                            assert(sub_map(root.left).dom().contains(*p.0));
                            assert(*p.0 < root.key);
                            assert(!sub_map(root.right).dom().contains(*p.0));
                            assert forall|k: u64|
                                sub_map(Some(*root)).dom().contains(k) && k > *key implies k
                                >= *p.0 by {
                                if k != root.key && !sub_map(root.left).dom().contains(k) {
                                    assert(sub_map(root.right).dom().contains(k));
                                }
                            }
                        }
                        Some(p)
                    },
                    None => {
                        proof {
                            assert forall|k: u64|
                                sub_map(Some(*root)).dom().contains(k) && k > *key implies k
                                >= root.key by {
                                if k != root.key && !sub_map(root.right).dom().contains(k) {
                                    assert(sub_map(root.left).dom().contains(k));
                                }
                            }
                        }
                        Some((&root.key, &root.data))
                    },
                }
            },
            None => {
                proof {
                    assert forall|k: u64|
                        sub_map(Some(*root)).dom().contains(k) && k > *key implies k
                        >= root.key by {
                        if k != root.key {
                            assert(!sub_map(root.left).dom().contains(k));
                            assert(sub_map(root.right).dom().contains(k));
                        }
                    }
                }
                Some((&root.key, &root.data))
            },
        }
    }
}

/// Remove the minimum of the conceptual tree whose root is `root` with
/// `left` reattached as its left child; `root`'s own left slot is empty.
/// Returns the rebalanced remainder and the detached minimal node.
pub fn drop_min_from_left<V>(root: Box<Node<V>>, left: Box<Node<V>>) -> (res: (
    Option<Box<Node<V>>>,
    Box<Node<V>>,
))
    requires
        root.left is None,
        wf(
            Some(
                Box::new(
                    (Node {
                        key: root.key,
                        data: root.data,
                        height: root.height,
                        left: Some(left),
                        right: root.right,
                    }),
                ),
            ),
        ),
    ensures
        ({
            let whole = (Node {
                key: root.key,
                data: root.data,
                height: root.height,
                left: Some(left),
                right: root.right,
            });
            &&& res.1.key == spec_min_key(whole)
            &&& sub_map(Some(Box::new(whole))).dom().contains(res.1.key)
            &&& res.1.data == sub_map(Some(Box::new(whole)))[res.1.key]
            &&& forall|k: u64|
                sub_map(Some(Box::new(whole))).dom().contains(k) ==> res.1.key <= k
            &&& res.1.left is None
            &&& res.1.right is None
            &&& wf(res.0)
            &&& sub_map(res.0) == sub_map(Some(Box::new(whole))).remove(res.1.key)
            &&& ht(Some(Box::new(whole))) - 1 <= ht(res.0) <= ht(Some(Box::new(whole)))
        }),
    decreases left, 1int,
{
    let ghost whole = (Node {
        key: root.key,
        data: root.data,
        height: root.height,
        left: Some(left),
        right: root.right,
    });
    proof {
        assert(sorted(Some(left)) && avl(Some(left)));
        assert(sorted(whole.right) && avl(whole.right));
    }
    let mut root = root;
    let (new_left, min) = drop_min(left);
    root.left = new_left;
    proof {
        let mk = min.key;
        assert(sub_map(Some(Box::new(whole))).dom().contains(mk));
        assert(mk < root.key);
        assert(!sub_map(root.right).dom().contains(mk));
        assert forall|k: u64| sub_map(root.left).dom().contains(k) implies k < root.key by {
            assert(sub_map(Some(whole.left.unwrap())).dom().contains(k));
        }
        assert(sorted(Some(root)));
        assert forall|k: u64|
            sub_map(Some(Box::new(whole))).dom().contains(k) implies mk <= k by {
            if k != root.key && !sub_map(Some(whole.left.unwrap())).dom().contains(k) {
                assert(sub_map(whole.right).dom().contains(k));
            }
        }
    }
    let res = updated_node(root);
    proof {
        assert(sub_map(Some(res)) =~= sub_map(Some(Box::new(whole))).remove(min.key));
    }
    (Some(res), min)
}

/// Detach the minimal node below `root` and return the rebalanced
/// remainder together with that node (whose children are cleared).
pub fn drop_min<V>(root: Box<Node<V>>) -> (res: (Option<Box<Node<V>>>, Box<Node<V>>))
    requires
        wf(Some(root)),
    ensures
        res.1.key == spec_min_key(*root),
        sub_map(Some(root)).dom().contains(res.1.key),
        res.1.data == sub_map(Some(root))[res.1.key],
        forall|k: u64| sub_map(Some(root)).dom().contains(k) ==> res.1.key <= k,
        res.1.left is None,
        res.1.right is None,
        wf(res.0),
        sub_map(res.0) == sub_map(Some(root)).remove(res.1.key),
        ht(Some(root)) - 1 <= ht(res.0) <= ht(Some(root)),
    decreases root, 0int,
{
    let ghost orig = root;
    let mut root = root;
    match root.left.take() {
        Some(left) => {
            proof {
                assert(Box::new(
                    (Node {
                        key: root.key,
                        data: root.data,
                        height: root.height,
                        left: Some(left),
                        right: root.right,
                    }),
                ) == orig);
            }
            drop_min_from_left(root, left)
        },
        None => {
            let rest = root.right.take();
            proof {
                assert forall|k: u64|
                    sub_map(Some(orig)).dom().contains(k) implies root.key <= k by {
                    if k != root.key {
                        assert(!sub_map(orig.left).dom().contains(k));
                        assert(sub_map(orig.right).dom().contains(k));
                    }
                }
                assert(!sub_map(orig.right).dom().contains(root.key));
                assert(sub_map(orig.left) =~= Map::<u64, V>::empty());
                assert(sub_map(rest) =~= sub_map(Some(orig)).remove(root.key));
            }
            (rest, root)
        },
    }
}

/// Join two well-formed subtrees, every key of `l` smaller than every
/// key of `r` and their heights within one of each other, into a single
/// well-formed subtree: the minimum of `r` becomes the new root.
pub fn combine_two_subtrees<V>(l: Box<Node<V>>, r: Box<Node<V>>) -> (res: Box<Node<V>>)
    requires
        wf(Some(l)),
        wf(Some(r)),
        forall|a: u64, b: u64|
            #[trigger] sub_map(Some(l)).dom().contains(a) && #[trigger] sub_map(
                Some(r),
            ).dom().contains(b) ==> a < b,
        -1 <= ht(Some(l)) - ht(Some(r)) <= 1,
    ensures
        wf(Some(res)),
        sub_map(Some(res)) == sub_map(Some(l)).union_prefer_right(sub_map(Some(r))),
        ({
            let full = 1 + max_nat(ht(Some(l)), ht(Some(r)));
            full - 1 <= ht(Some(res)) <= full
        }),
{
    let ghost lg = l;
    let ghost rg = r;
    let (remaining_tree, min) = drop_min(r);
    let mut new_root = min;
    new_root.left = Some(l);
    new_root.right = remaining_tree;
    proof {
        let mk = new_root.key;
        assert(sub_map(Some(rg)).dom().contains(mk));
        assert forall|k: u64| sub_map(new_root.left).dom().contains(k) implies k < mk by {
            assert(sub_map(Some(lg)).dom().contains(k));
        }
        assert forall|k: u64| sub_map(new_root.right).dom().contains(k) implies k > mk by {
            assert(sub_map(Some(rg)).dom().contains(k));
        }
        assert(sorted(Some(new_root)));
    }
    let res = updated_node(new_root);
    proof {
        assert(sub_map(Some(res)) =~= sub_map(Some(lg)).union_prefer_right(sub_map(Some(rg))));
    }
    res
}

/// Remove the root node of `root`: an empty slot, the sole child, or the
/// combination of the two children takes its place.
pub fn delete_root<V>(root: Box<Node<V>>) -> (res: Option<Box<Node<V>>>)
    requires
        wf(Some(root)),
    ensures
        wf(res),
        sub_map(res) == sub_map(Some(root)).remove(root.key),
        ht(Some(root)) - 1 <= ht(res) <= ht(Some(root)),
    decreases root,
{
    let ghost orig = root;
    let mut root = root;
    let l0 = root.left.take();
    let r0 = root.right.take();
    match (l0, r0) {
        (None, None) => {
            proof {
                assert(sub_map(None::<Box<Node<V>>>) =~= sub_map(Some(orig)).remove(orig.key));
            }
            None
        },
        (Some(l), None) => {
            proof {
                assert(!sub_map(orig.left).dom().contains(orig.key));
                assert(sub_map(orig.right) =~= Map::<u64, V>::empty());
                assert(sub_map(Some(l)) =~= sub_map(Some(orig)).remove(orig.key));
            }
            Some(l)
        },
        (None, Some(r)) => {
            proof {
                assert(!sub_map(orig.right).dom().contains(orig.key));
                assert(sub_map(orig.left) =~= Map::<u64, V>::empty());
                assert(sub_map(Some(r)) =~= sub_map(Some(orig)).remove(orig.key));
            }
            Some(r)
        },
        (Some(l), Some(r)) => {
            proof {
                assert(sorted(Some(l)) && avl(Some(l)) && sorted(Some(r)) && avl(Some(r)));
                assert forall|a: u64, b: u64|
                    #[trigger] sub_map(Some(l)).dom().contains(a) && #[trigger] sub_map(
                        Some(r),
                    ).dom().contains(b) implies a < b by {
                    assert(a < orig.key);
                    assert(b > orig.key);
                }
            }
            let res = combine_two_subtrees(l, r);
            proof {
                assert(!sub_map(orig.left).dom().contains(orig.key));
                assert(!sub_map(orig.right).dom().contains(orig.key));
                assert(sub_map(Some(res)) =~= sub_map(Some(orig)).remove(orig.key));
            }
            Some(res)
        },
    }
}

/// Delete `key` from the subtree `root`. The result holds the old
/// contents minus that binding, stays sorted and balanced, and shrinks
/// in height by at most one; deleting an absent key changes nothing.
pub fn delete<V>(key: u64, root: Box<Node<V>>) -> (res: Option<Box<Node<V>>>)
    requires
        wf(Some(root)),
    ensures
        wf(res),
        sub_map(res) == sub_map(Some(root)).remove(key),
        ht(Some(root)) - 1 <= ht(res) <= ht(Some(root)),
    decreases root,
{
    let ghost orig = root;
    if key == root.key {
        delete_root(root)
    } else if key > root.key {
        let mut root = root;
        match root.right.take() {
            Some(succ) => {
                proof {
                    assert(sorted(Some(succ)) && avl(Some(succ)));
                    assert(sorted(orig.left) && avl(orig.left));
                }
                let nr = delete(key, succ);
                root.right = nr;
                let ghost mid = root;
                proof {
                    assert forall|k: u64|
                        sub_map(root.right).dom().contains(k) implies k > root.key by {
                        assert(sub_map(orig.right).dom().contains(k));
                    }
                    assert(sorted(Some(root)));
                    assert(!sub_map(orig.left).dom().contains(key));
                    assert(sub_map(Some(mid)) =~= sub_map(Some(orig)).remove(key));
                }
                let res = updated_node(root);
                proof {
                    assert(sub_map(Some(res)) == sub_map(Some(mid)));
                }
                Some(res)
            },
            None => {
                proof {
                    assert(sub_map(orig.right) =~= Map::<u64, V>::empty());
                    assert(!sub_map(orig.left).dom().contains(key));
                    assert(!sub_map(Some(orig)).dom().contains(key));
                    assert(sub_map(Some(root)) =~= sub_map(Some(orig)).remove(key));
                }
                Some(root)
            },
        }
    } else {
        let mut root = root;
        match root.left.take() {
            Some(succ) => {
                proof {
                    assert(sorted(Some(succ)) && avl(Some(succ)));
                    assert(sorted(orig.right) && avl(orig.right));
                }
                let nl = delete(key, succ);
                root.left = nl;
                let ghost mid = root;
                proof {
                    assert forall|k: u64|
                        sub_map(root.left).dom().contains(k) implies k < root.key by {
                        assert(sub_map(orig.left).dom().contains(k));
                    }
                    assert(sorted(Some(root)));
                    assert(!sub_map(orig.right).dom().contains(key));
                    assert(sub_map(Some(mid)) =~= sub_map(Some(orig)).remove(key));
                }
                let res = updated_node(root);
                proof {
                    assert(sub_map(Some(res)) == sub_map(Some(mid)));
                }
                Some(res)
            },
            None => {
                proof {
                    assert(sub_map(orig.left) =~= Map::<u64, V>::empty());
                    assert(!sub_map(orig.right).dom().contains(key));
                    assert(!sub_map(Some(orig)).dom().contains(key));
                    assert(sub_map(Some(root)) =~= sub_map(Some(orig)).remove(key));
                }
                Some(root)
            },
        }
    }
}

/// The character for one decimal digit.
pub open spec fn dec_digit(d: nat) -> char {
    if d == 0 {
        '0'
    } else if d == 1 {
        '1'
    } else if d == 2 {
        '2'
    } else if d == 3 {
        '3'
    } else if d == 4 {
        '4'
    } else if d == 5 {
        '5'
    } else if d == 6 {
        '6'
    } else if d == 7 {
        '7'
    } else if d == 8 {
        '8'
    } else {
        '9'
    }
}

/// The decimal rendering of a number, most significant digit first.
pub open spec fn dec_str(n: nat) -> Seq<char>
    decreases n,
{
    if n < 10 {
        seq![dec_digit(n)]
    } else {
        dec_str(n / 10).push(dec_digit(n % 10))
    }
}

/// The rendering of a node: its key, its cached height, and both child
/// subtrees, in that order.
pub open spec fn node_str<V>(n: Node<V>) -> Seq<char>
    decreases n,
{
    seq!['N', ' '] + dec_str(n.key as nat) + seq!['(', 'h', ':', ' '] + dec_str(n.height as nat)
        + seq![' ', 'l', ':', ' '] + opt_str(n.left) + seq![',', ' ', 'r', ':', ' '] + opt_str(
        n.right,
    ) + seq![')']
}

/// The rendering of an optional subtree: a slashed-o placeholder when
/// absent, else the node's rendering.
pub open spec fn opt_str<V>(t: Option<Box<Node<V>>>) -> Seq<char>
    decreases t,
{
    match t {
        None => seq!['\u{d8}'],
        Some(b) => node_str(*b),
    }
}

/// Append the decimal rendering of `x` to `s`.
fn push_decimal(s: &mut String, x: u64)
    ensures
        final(s)@ == old(s)@ + dec_str(x as nat),
    decreases x,
{
    let ghost mid0 = s@;
    if x >= 10 {
        push_decimal(s, x / 10);
    }
    let ghost mid = s@;
    let d = x % 10;
    let digit: &str = if d == 0 {
        "0"
    } else if d == 1 {
        "1"
    } else if d == 2 {
        "2"
    } else if d == 3 {
        "3"
    } else if d == 4 {
        "4"
    } else if d == 5 {
        "5"
    } else if d == 6 {
        "6"
    } else if d == 7 {
        "7"
    } else if d == 8 {
        "8"
    } else {
        "9"
    };
    proof {
        reveal_strlit("0");
        reveal_strlit("1");
        reveal_strlit("2");
        reveal_strlit("3");
        reveal_strlit("4");
        reveal_strlit("5");
        reveal_strlit("6");
        reveal_strlit("7");
        reveal_strlit("8");
        reveal_strlit("9");
        assert(digit@ =~= seq![dec_digit((x % 10) as nat)]);
    }
    s.append(digit);
    proof {
        if x >= 10 {
            assert(s@ =~= mid0 + dec_str(x as nat));
        } else {
            assert(s@ =~= mid0 + dec_str(x as nat));
        }
    }
}

impl<V> Node<V> {
    /// Render this node and its subtrees.
    pub fn to_string(&self) -> (s: String)
        ensures
            s@ == node_str(*self),
        decreases *self,
    {
        let mut s = String::new();
        s.append("N ");
        push_decimal(&mut s, self.key);
        s.append("(h: ");
        push_decimal(&mut s, self.height as u64);
        s.append(" l: ");
        let left_s = to_string(&self.left);
        s.append(left_s.as_str());
        s.append(", r: ");
        let right_s = to_string(&self.right);
        s.append(right_s.as_str());
        s.append(")");
        proof {
            reveal_strlit("N ");
            reveal_strlit("(h: ");
            reveal_strlit(" l: ");
            reveal_strlit(", r: ");
            reveal_strlit(")");
            assert("N "@ =~= seq!['N', ' ']);
            assert("(h: "@ =~= seq!['(', 'h', ':', ' ']);
            assert(" l: "@ =~= seq![' ', 'l', ':', ' ']);
            assert(", r: "@ =~= seq![',', ' ', 'r', ':', ' ']);
            assert(")"@ =~= seq![')']);
            assert(s@ =~= node_str(*self));
        }
        s
    }
}

/// Render an optional subtree.
pub fn to_string<V>(opt_box_node: &Option<Box<Node<V>>>) -> (s: String)
    ensures
        s@ == opt_str(*opt_box_node),
    decreases *opt_box_node,
{
    match opt_box_node {
        Some(box_node) => box_node.to_string(),
        None => {
            let mut s = String::new();
            s.append("\u{d8}");
            proof {
                reveal_strlit("\u{d8}");
                assert(s@ =~= seq!['\u{d8}']);
            }
            s
        },
    }
}

/// Whether the immediate left child, if any, is keyed below `node`.
pub fn is_sorted_left<V>(node: &Box<Node<V>>) -> (r: bool)
    ensures
        r == (node.left is Some ==> node.left.unwrap().key < node.key),
{
    match &node.left {
        Some(succ) => succ.key < node.key,
        None => true,
    }
}

/// Whether the immediate right child, if any, is keyed above `node`.
pub fn is_sorted_right<V>(node: &Box<Node<V>>) -> (r: bool)
    ensures
        r == (node.right is Some ==> node.right.unwrap().key > node.key),
{
    match &node.right {
        Some(succ) => succ.key > node.key,
        None => true,
    }
}

/// Whether `node` passes the local structural checks: both immediate
/// children on the correct side and the cached height one more than the
/// larger cached child height.
pub fn is_avl_node<V>(node: &Box<Node<V>>) -> (r: bool)
    ensures
        r == ({
            &&& (node.left is Some ==> node.left.unwrap().key < node.key)
            &&& (node.right is Some ==> node.right.unwrap().key > node.key)
            &&& node.height as int == 1 + max_nat(cached_ht(node.left), cached_ht(node.right))
        }),
{
    let sorted_here = is_sorted_left(node) && is_sorted_right(node);
    let hl = height(&node.left) as u64;
    let hr = height(&node.right) as u64;
    let taller = if hl >= hr {
        hl
    } else {
        hr
    };
    let balanced = (node.height as u64) == taller + 1;
    sorted_here && balanced
}

/// Whether the root node, if any, passes the local structural checks.
pub fn is_avl_tree<V>(root: &Option<Box<Node<V>>>) -> (r: bool)
    ensures
        r == (match *root {
            Some(n) => {
                &&& (n.left is Some ==> n.left.unwrap().key < n.key)
                &&& (n.right is Some ==> n.right.unwrap().key > n.key)
                &&& n.height as int == 1 + max_nat(cached_ht(n.left), cached_ht(n.right))
            },
            None => true,
        }),
{
    match root {
        Some(node) => is_avl_node(node),
        None => true,
    }
}

/// A tree holding the keys `1..=size` with values `1337`, `1338`, and
/// so on in key order.
pub fn simple_tree(size: i32) -> (t: Box<Node<i32>>)
    requires
        1 <= size <= 0x7fff_ffff - 1337,
    ensures
        wf(Some(t)),
        forall|k: u64| sub_map(Some(t)).dom().contains(k) <==> 1 <= k <= size,
        forall|k: u64| 1 <= k <= size ==> sub_map(Some(t))[k] == (1336 + k) as i32,
{
    let mut t = Box::new(Node::new(1, 1337));
    proof {
        assert(t.left is None && t.right is None);
        assert(sub_map(t.left) =~= Map::<u64, i32>::empty());
        assert(sub_map(t.right) =~= Map::<u64, i32>::empty());
        assert(sub_map(Some(t)) =~= Map::<u64, i32>::empty().insert(1, 1337));
        assert(sorted(t.left) && sorted(t.right) && avl(t.left) && avl(t.right));
        assert(ht(t.left) == 0 && ht(t.right) == 0);
        assert(sorted(Some(t)));
        assert(avl(Some(t)));
    }
    let mut x: i32 = 2;
    while x <= size
        invariant
            2 <= x <= size + 1,
            1 <= size <= 0x7fff_ffff - 1337,
            wf(Some(t)),
            forall|k: u64| sub_map(Some(t)).dom().contains(k) <==> 1 <= k < x,
            forall|k: u64| 1 <= k < x ==> sub_map(Some(t))[k] == (1336 + k) as i32,
        decreases size + 1 - x,
    {
        t = insert(x as u64, 1337 + x - 1, t);
        x = x + 1;
    }
    t
}

} // verus!
