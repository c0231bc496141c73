//! The nodes of a splay tree and the operations on them.
use vstd::prelude::*;
use std::cmp::Ordering;
use crate::order::{
    key_lt, key_equiv, lawful_order, lemma_key_order, lemma_cmp_agrees, lemma_key_lt_trans,
    lemma_key_equiv_subst,
};
use crate::seqs::{
    sorted, below, above, all_below, all_above, all_at_most, lemma_sorted_mid,
    lemma_all_above_cons, lemma_all_below_snoc, lemma_filters_hit, lemma_filters_gap,
    lemma_sorted_concat, lemma_sorted_join, lemma_sorted_drop_mid, nearest, derefs, has_key,
};

verus! {

pub(crate) type Link<T> = Option<Box<Node<T>>>;

pub(crate) struct Node<T: Ord> {
    pub(crate) key: T,
    pub(crate) left: Link<T>,
    pub(crate) right: Link<T>,
}

/// The keys of a subtree, in order: left subtree, the node, right subtree.
pub(crate) open spec fn seq_of<T: Ord>(link: Link<T>) -> Seq<T>
    decreases link,
{
    match link {
        None => Seq::empty(),
        Some(n) => seq_of(n.left) + seq![n.key] + seq_of(n.right),
    }
}

/// The keys of the subtree rooted at `n`, in order.
pub(crate) open spec fn node_seq<T: Ord>(n: Node<T>) -> Seq<T> {
    seq_of(n.left) + seq![n.key] + seq_of(n.right)
}

/// After a splay for `k`, the root `n` is `k` or borders on it: where the
/// root lies below `k`, its whole right subtree lies above `k`, and where it
/// lies above `k`, its whole left subtree lies below `k`.
pub(crate) open spec fn splayed_at<T: Ord>(n: Node<T>, k: T) -> bool {
    &&& key_lt(n.key, k) ==> all_above(seq_of(n.right), k)
    &&& key_lt(k, n.key) ==> all_below(seq_of(n.left), k)
}

/// The keys that the nodes of the left assembly contribute, in order: each
/// node brings its left subtree and itself; its right side is where the
/// next node hangs.
spec fn left_part<T: Ord>(s: Seq<Box<Node<T>>>) -> Seq<T>
    decreases s.len(),
{
    if s.len() == 0 {
        Seq::empty()
    } else {
        left_part(s.drop_last()) + seq_of(s.last().left) + seq![s.last().key]
    }
}

/// The keys that the nodes of the right assembly contribute, in order: each
/// node brings itself and its right subtree; its left side is where the next
/// node hangs.
spec fn right_part<T: Ord>(s: Seq<Box<Node<T>>>) -> Seq<T>
    decreases s.len(),
{
    if s.len() == 0 {
        Seq::empty()
    } else {
        seq![s.last().key] + seq_of(s.last().right) + right_part(s.drop_last())
    }
}

impl<T: Ord> Node<T> {
    /// A leaf holding `key`.
    pub(crate) fn new(key: T) -> (n: Box<Self>)
        ensures
            n.key == key,
            n.left is None,
            n.right is None,
    {
        Box::new(Node { key, left: None, right: None })
    }
}

/// The top-down splay for `k` of the subtree `t`, taken apart: the tree
/// that ends left of the new root, the new root's key, and the tree that
/// ends right of it. Each step looks at the next node on the search path:
/// where the key is there or the path ends, it is the new root; a zig links
/// the current top to the far side's assembly and steps down one level; a
/// zig-zig first rotates the top with its child, then links the child and
/// steps down two levels. The assemblies' open slots take what the deeper
/// steps return.
pub(crate) open spec fn top_down<T: Ord>(t: Node<T>, k: T) -> (Link<T>, T, Link<T>)
    decreases t,
{
    if key_lt(k, t.key) {
        match t.left {
            None => (None, t.key, t.right),
            Some(l) => if key_lt(k, l.key) {
                let rotated = Some(Box::new(Node { key: t.key, left: l.right, right: t.right }));
                match l.left {
                    None => (None, l.key, rotated),
                    Some(ll) => {
                        let (a, x, b) = top_down(*ll, k);
                        (a, x, Some(Box::new(Node { key: l.key, left: b, right: rotated })))
                    },
                }
            } else {
                let (a, x, b) = top_down(*l, k);
                (a, x, Some(Box::new(Node { key: t.key, left: b, right: t.right })))
            },
        }
    } else if key_lt(t.key, k) {
        match t.right {
            None => (t.left, t.key, None),
            Some(r) => if key_lt(r.key, k) {
                let rotated = Some(Box::new(Node { key: t.key, left: t.left, right: r.left }));
                match r.right {
                    None => (rotated, r.key, None),
                    Some(rr) => {
                        let (a, x, b) = top_down(*rr, k);
                        (Some(Box::new(Node { key: r.key, left: rotated, right: a })), x, b)
                    },
                }
            } else {
                let (a, x, b) = top_down(*r, k);
                (Some(Box::new(Node { key: t.key, left: t.left, right: a })), x, b)
            },
        }
    } else {
        (t.left, t.key, t.right)
    }
}

/// The number of passes that the top-down splay for `k` makes through its
/// loop on `t`: one per zig or zig-zig, and one for the pass that stops.
pub(crate) open spec fn splay_steps<T: Ord>(t: Node<T>, k: T) -> nat
    decreases t,
{
    if key_lt(k, t.key) {
        match t.left {
            None => 1,
            Some(l) => if key_lt(k, l.key) {
                match l.left {
                    None => 1,
                    Some(ll) => 1 + splay_steps(*ll, k),
                }
            } else {
                1 + splay_steps(*l, k)
            },
        }
    } else if key_lt(t.key, k) {
        match t.right {
            None => 1,
            Some(r) => if key_lt(r.key, k) {
                match r.right {
                    None => 1,
                    Some(rr) => 1 + splay_steps(*rr, k),
                }
            } else {
                1 + splay_steps(*r, k)
            },
        }
    } else {
        1
    }
}

/// The number of nodes on the longest path down from the root.
pub(crate) open spec fn height<T: Ord>(link: Link<T>) -> nat
    decreases link,
{
    match link {
        None => 0,
        Some(n) => 1 + if height(n.left) >= height(n.right) {
            height(n.left)
        } else {
            height(n.right)
        },
    }
}

/// The splay's passes through its loop are at most the tree's height.
pub(crate) proof fn lemma_splay_steps_height<T: Ord>(t: Node<T>, k: T)
    ensures
        splay_steps(t, k) <= height(Some(Box::new(t))),
    decreases t,
{
    let h = height(Some(Box::new(t)));
    assert(h >= 1 + height(t.left) && h >= 1 + height(t.right));
    if key_lt(k, t.key) {
        if let Some(l) = t.left {
            assert(height(t.left) >= 1 + height(l.left) && height(t.left) >= 1 + height(l.right));
            if key_lt(k, l.key) {
                if let Some(ll) = l.left {
                    lemma_splay_steps_height(*ll, k);
                }
            } else {
                lemma_splay_steps_height(*l, k);
            }
        }
    } else if key_lt(t.key, k) {
        if let Some(r) = t.right {
            assert(height(t.right) >= 1 + height(r.left) && height(t.right) >= 1 + height(r.right));
            if key_lt(r.key, k) {
                if let Some(rr) = r.right {
                    lemma_splay_steps_height(*rr, k);
                }
            } else {
                lemma_splay_steps_height(*r, k);
            }
        }
    }
}

/// The tree that the top-down splay for `k` makes of `link`.
pub(crate) open spec fn splay_result<T: Ord>(link: Link<T>, k: T) -> Link<T> {
    match link {
        None => None,
        Some(t) => {
            let (a, x, b) = top_down(*t, k);
            Some(Box::new(Node { key: x, left: a, right: b }))
        },
    }
}

/// The left assembly with `hole` put in its open slot: the nodes hang one
/// below the other along right links, the last one taking `hole`.
spec fn fill_left<T: Ord>(s: Seq<Box<Node<T>>>, hole: Link<T>) -> Link<T>
    decreases s.len(),
{
    if s.len() == 0 {
        hole
    } else {
        fill_left(
            s.drop_last(),
            Some(Box::new(Node { key: s.last().key, left: s.last().left, right: hole })),
        )
    }
}

/// The right assembly with `hole` put in its open slot: the nodes hang one
/// below the other along left links, the last one taking `hole`.
spec fn fill_right<T: Ord>(s: Seq<Box<Node<T>>>, hole: Link<T>) -> Link<T>
    decreases s.len(),
{
    if s.len() == 0 {
        hole
    } else {
        fill_right(
            s.drop_last(),
            Some(Box::new(Node { key: s.last().key, left: hole, right: s.last().right })),
        )
    }
}

/// The tree that results once the search for `k` has reached the state
/// `lefts`, `t`, `rights`.
#[verifier::opaque]
spec fn assembled<T: Ord>(lefts: Seq<Box<Node<T>>>, t: Node<T>, rights: Seq<Box<Node<T>>>, k: T) -> Link<T> {
    let (a, x, b) = top_down(t, k);
    Some(Box::new(Node { key: x, left: fill_left(lefts, a), right: fill_right(rights, b) }))
}

/// Where the search has stopped at `t`, the result is `t` with the
/// assemblies filled by its subtrees.
proof fn lemma_assembled_stop<T: Ord>(
    lefts: Seq<Box<Node<T>>>,
    t: Node<T>,
    rights: Seq<Box<Node<T>>>,
    k: T,
)
    requires
        !key_lt(k, t.key) || t.left is None,
        !key_lt(t.key, k) || t.right is None,
        lawful_order::<T>(),
    ensures
        assembled(lefts, t, rights, k) == Some(
            Box::new(Node { key: t.key, left: fill_left(lefts, t.left), right: fill_right(rights, t.right) }),
        ),
{
    reveal(assembled);
    lemma_key_order::<T>();
}

/// A zig towards the left: the top joins the right assembly and the search
/// goes on at its left child.
proof fn lemma_assembled_zig_left<T: Ord>(
    lefts: Seq<Box<Node<T>>>,
    t: Node<T>,
    rights: Seq<Box<Node<T>>>,
    k: T,
)
    requires
        key_lt(k, t.key),
        t.left is Some,
        !key_lt(k, t.left->0.key),
    ensures
        assembled(lefts, t, rights, k) == assembled(
            lefts,
            *t.left->0,
            rights.push(Box::new(Node { key: t.key, left: None, right: t.right })),
            k,
        ),
{
    reveal(assembled);
    let r2 = rights.push(Box::new(Node { key: t.key, left: None, right: t.right }));
    assert(r2.drop_last() =~= rights);
}

/// A zig-zig towards the left: the top and its left child rotate, the child
/// joins the right assembly and the search goes on at its left child.
proof fn lemma_assembled_zigzig_left<T: Ord>(
    lefts: Seq<Box<Node<T>>>,
    t: Node<T>,
    rights: Seq<Box<Node<T>>>,
    k: T,
)
    requires
        key_lt(k, t.key),
        t.left is Some,
        key_lt(k, t.left->0.key),
    ensures
        ({
            let l = t.left->0;
            let rotated = Some(Box::new(Node { key: t.key, left: l.right, right: t.right }));
            match l.left {
                None => assembled(lefts, t, rights, k) == Some(
                    Box::new(Node { key: l.key, left: fill_left(lefts, None), right: fill_right(rights, rotated) }),
                ),
                Some(ll) => assembled(lefts, t, rights, k) == assembled(
                    lefts,
                    *ll,
                    rights.push(Box::new(Node { key: l.key, left: None, right: rotated })),
                    k,
                ),
            }
        }),
{
    reveal(assembled);
    let l = t.left->0;
    let rotated = Some(Box::new(Node { key: t.key, left: l.right, right: t.right }));
    let r2 = rights.push(Box::new(Node { key: l.key, left: None, right: rotated }));
    assert(r2.drop_last() =~= rights);
}

/// A zig towards the right: the top joins the left assembly and the search
/// goes on at its right child.
proof fn lemma_assembled_zig_right<T: Ord>(
    lefts: Seq<Box<Node<T>>>,
    t: Node<T>,
    rights: Seq<Box<Node<T>>>,
    k: T,
)
    requires
        lawful_order::<T>(),
        key_lt(t.key, k),
        t.right is Some,
        !key_lt(t.right->0.key, k),
    ensures
        assembled(lefts, t, rights, k) == assembled(
            lefts.push(Box::new(Node { key: t.key, left: t.left, right: None })),
            *t.right->0,
            rights,
            k,
        ),
{
    reveal(assembled);
    lemma_key_order::<T>();
    let l2 = lefts.push(Box::new(Node { key: t.key, left: t.left, right: None }));
    assert(l2.drop_last() =~= lefts);
}

/// A zig-zig towards the right: the top and its right child rotate, the
/// child joins the left assembly and the search goes on at its right child.
proof fn lemma_assembled_zigzig_right<T: Ord>(
    lefts: Seq<Box<Node<T>>>,
    t: Node<T>,
    rights: Seq<Box<Node<T>>>,
    k: T,
)
    requires
        lawful_order::<T>(),
        key_lt(t.key, k),
        t.right is Some,
        key_lt(t.right->0.key, k),
    ensures
        ({
            let r = t.right->0;
            let rotated = Some(Box::new(Node { key: t.key, left: t.left, right: r.left }));
            match r.right {
                None => assembled(lefts, t, rights, k) == Some(
                    Box::new(Node { key: r.key, left: fill_left(lefts, rotated), right: fill_right(rights, None) }),
                ),
                Some(rr) => assembled(lefts, t, rights, k) == assembled(
                    lefts.push(Box::new(Node { key: r.key, left: rotated, right: None })),
                    *rr,
                    rights,
                    k,
                ),
            }
        }),
{
    reveal(assembled);
    lemma_key_order::<T>();
    let r = t.right->0;
    let rotated = Some(Box::new(Node { key: t.key, left: t.left, right: r.left }));
    let l2 = lefts.push(Box::new(Node { key: r.key, left: rotated, right: None }));
    assert(l2.drop_last() =~= lefts);
}

/// Hangs the left assembly `lefts` above `cur`: each node, from the last
/// to the first, takes what is built so far as its right subtree.
fn hang_left<T: Ord>(lefts: Vec<Box<Node<T>>>, cur: Link<T>) -> (res: Link<T>)
    ensures
        res == fill_left(lefts@, cur),
        seq_of(res) == left_part(lefts@) + seq_of(cur),
{
    let mut lefts = lefts;
    let ghost all = lefts@;
    let ghost cur_start = cur;
    let mut cur_left = cur;
    while lefts.len() > 0
        invariant
            left_part(lefts@) + seq_of(cur_left) == left_part(all) + seq_of(cur_start),
            fill_left(lefts@, cur_left) == fill_left(all, cur_start),
        decreases lefts.len(),
    {
        let ghost ls0 = lefts@;
        let ghost cur0 = cur_left;
        let mut n = lefts.pop().unwrap();
        let ghost cl = seq_of(cur_left);
        n.right = cur_left;
        cur_left = Some(n);
        assert(lefts@ =~= ls0.drop_last());
        assert(cur_left == Some(Box::new(Node { key: ls0.last().key, left: ls0.last().left, right: cur0 })));
        assert(left_part(ls0) =~= left_part(lefts@) + seq_of(n.left) + seq![n.key]);
        assert(left_part(lefts@) + seq_of(cur_left) =~= left_part(ls0) + cl);
    }
    assert(left_part(lefts@) =~= Seq::<T>::empty());
    assert(seq_of(cur_left) =~= left_part(all) + seq_of(cur_start));
    cur_left
}

/// Hangs the right assembly `rights` above `cur`: each node, from the last
/// to the first, takes what is built so far as its left subtree.
fn hang_right<T: Ord>(rights: Vec<Box<Node<T>>>, cur: Link<T>) -> (res: Link<T>)
    ensures
        res == fill_right(rights@, cur),
        seq_of(res) == seq_of(cur) + right_part(rights@),
{
    let mut rights = rights;
    let ghost all = rights@;
    let ghost cur_start = cur;
    let mut cur_right = cur;
    while rights.len() > 0
        invariant
            seq_of(cur_right) + right_part(rights@) == seq_of(cur_start) + right_part(all),
            fill_right(rights@, cur_right) == fill_right(all, cur_start),
        decreases rights.len(),
    {
        let ghost rs0 = rights@;
        let ghost cur0 = cur_right;
        let mut n = rights.pop().unwrap();
        let ghost cr = seq_of(cur_right);
        n.left = cur_right;
        cur_right = Some(n);
        assert(rights@ =~= rs0.drop_last());
        assert(cur_right == Some(Box::new(Node { key: rs0.last().key, left: cur0, right: rs0.last().right })));
        assert(right_part(rs0) =~= seq![n.key] + seq_of(n.right) + right_part(rights@));
        assert(seq_of(cur_right) + right_part(rights@) =~= cr + right_part(rs0));
    }
    assert(right_part(rights@) =~= Seq::<T>::empty());
    assert(seq_of(cur_right) =~= seq_of(cur_start) + right_part(all));
    cur_right
}

/// Top-down splay: brings the node holding `key`, or a node next to where
/// `key` would stand, to the root. The keys and their order do not change.
#[verifier::rlimit(30)]
pub(crate) fn splay<T: Ord>(root: Link<T>, key: &T) -> (res: (Link<T>, Ghost<nat>))
    requires
        lawful_order::<T>(),
        sorted(seq_of(root)),
    ensures
        seq_of(res.0) == seq_of(root),
        res.0 is Some <==> root is Some,
        res.0 matches Some(n) ==> splayed_at(*n, *key),
        res.0 == splay_result(root, *key),
        root matches Some(t) ==> res.1@ == splay_steps(*t, *key),
        res.1@ <= height(root),
{
    proof {
        lemma_cmp_agrees::<T>();
    }
    let ghost whole = seq_of(root);
    let ghost target = splay_result(root, *key);
    let mut t = match root {
        None => return (None, Ghost(0)),
        Some(t) => t,
    };
    let ghost total = splay_steps(*t, *key);
    proof {
        lemma_splay_steps_height(*t, *key);
    }
    let ghost mut passes: nat = 1;
    // Nodes that have left the search path: those below `key` form the left
    // assembly, those above it the right assembly.
    let mut lefts: Vec<Box<Node<T>>> = Vec::new();
    let mut rights: Vec<Box<Node<T>>> = Vec::new();
    assert(target == assembled(lefts@, *t, rights@, *key)) by {
        reveal(assembled);
        let (a, x, b) = top_down(*t, *key);
        assert(fill_left(lefts@, a) == a);
        assert(fill_right(rights@, b) == b);
    }
    loop
        invariant_except_break
            lawful_order::<T>(),
            sorted(whole),
            whole == left_part(lefts@) + node_seq(*t) + right_part(rights@),
            all_below(left_part(lefts@), *key),
            all_above(right_part(rights@), *key),
            target == assembled(lefts@, *t, rights@, *key),
            passes + splay_steps(*t, *key) == total + 1,
        ensures
            passes == total,
            target == Some(Box::new(Node { key: t.key, left: fill_left(lefts@, t.left), right: fill_right(rights@, t.right) })),
            sorted(whole),
            whole == left_part(lefts@) + node_seq(*t) + right_part(rights@),
            all_below(left_part(lefts@), *key),
            all_above(right_part(rights@), *key),
            key_equiv(t.key, *key) || (key_lt(*key, t.key) && t.left is None) || (key_lt(t.key, *key)
                && t.right is None),
        decreases node_seq(*t).len(),
    {
        proof {
            lemma_cmp_agrees::<T>();
        }
        let ghost lp = left_part(lefts@);
        let ghost rp = right_part(rights@);
        let ghost ls0 = lefts@;
        let ghost rs0 = rights@;
        let ghost tk = t.key;
        let ghost t0 = *t;
        match key.cmp(&t.key) {
            Ordering::Equal => {
                proof {
                    lemma_assembled_stop(lefts@, *t, rights@, *key);
                }
                break;
            },
            Ordering::Less => {
                let ghost c = seq_of(t.right);
                match t.left.take() {
                    None => {
                        proof {
                            lemma_assembled_stop(lefts@, *t, rights@, *key);
                        }
                        break;
                    },
                    Some(mut left) => {
                        let ghost a = seq_of(left.left);
                        let ghost lk = left.key;
                        let ghost b = seq_of(left.right);
                        assert(whole =~= lp + (a + seq![lk] + b + seq![tk] + c) + rp);
                        match key.cmp(&left.key) {
                            Ordering::Less => {
                                // Zig-zig: rotate right, then link the new
                                // top to the right assembly.
                                proof {
                                    lemma_assembled_zigzig_left(ls0, t0, rs0, *key);
                                }
                                t.left = left.right.take();
                                left.right = Some(t);
                                t = left;
                                assert(node_seq(*t) =~= a + seq![lk] + (b + seq![tk] + c));
                                match t.left.take() {
                                    None => {
                                        assert(whole =~= lp + node_seq(*t) + rp);
                                        break;
                                    },
                                    Some(new_left) => {
                                        rights.push(t);
                                        t = new_left;
                                        proof {
                                            passes = passes + 1;
                                        }
                                        proof {
                                            assert(rights@.drop_last() =~= rs0);
                                            let tail = b + seq![tk] + c + rp;
                                            assert(right_part(rights@) =~= seq![lk] + tail);
                                            assert(whole =~= (lp + a) + seq![lk] + tail);
                                            lemma_sorted_mid(lp + a, lk, tail);
                                            lemma_all_above_cons(lk, tail, *key);
                                            assert(whole =~= left_part(lefts@) + node_seq(*t)
                                                + right_part(rights@));
                                        }
                                    },
                                }
                            },
                            _ => {
                                // Zig: link the top to the right assembly.
                                proof {
                                    lemma_assembled_zig_left(ls0, t0, rs0, *key);
                                }
                                rights.push(t);
                                t = left;
                                proof {
                                    passes = passes + 1;
                                }
                                proof {
                                    assert(rights@.drop_last() =~= rs0);
                                    let tail = c + rp;
                                    assert(right_part(rights@) =~= seq![tk] + tail);
                                    assert(whole =~= (lp + a + seq![lk] + b) + seq![tk] + tail);
                                    lemma_sorted_mid(lp + a + seq![lk] + b, tk, tail);
                                    lemma_all_above_cons(tk, tail, *key);
                                    assert(whole =~= left_part(lefts@) + node_seq(*t)
                                        + right_part(rights@));
                                }
                            },
                        }
                    },
                }
            },
            Ordering::Greater => {
                let ghost a = seq_of(t.left);
                match t.right.take() {
                    None => {
                        proof {
                            lemma_assembled_stop(lefts@, *t, rights@, *key);
                        }
                        break;
                    },
                    Some(mut right) => {
                        let ghost d = seq_of(right.left);
                        let ghost rk = right.key;
                        let ghost e = seq_of(right.right);
                        assert(whole =~= lp + (a + seq![tk] + d + seq![rk] + e) + rp);
                        match key.cmp(&right.key) {
                            Ordering::Greater => {
                                // Zig-zig: rotate left, then link the new
                                // top to the left assembly.
                                proof {
                                    lemma_assembled_zigzig_right(ls0, t0, rs0, *key);
                                }
                                t.right = right.left.take();
                                right.left = Some(t);
                                t = right;
                                assert(node_seq(*t) =~= (a + seq![tk] + d) + seq![rk] + e);
                                match t.right.take() {
                                    None => {
                                        assert(whole =~= lp + node_seq(*t) + rp);
                                        break;
                                    },
                                    Some(new_right) => {
                                        lefts.push(t);
                                        t = new_right;
                                        proof {
                                            passes = passes + 1;
                                        }
                                        proof {
                                            assert(lefts@.drop_last() =~= ls0);
                                            let head = lp + a + seq![tk] + d;
                                            assert(left_part(lefts@) =~= head + seq![rk]);
                                            assert(whole =~= head + seq![rk] + (e + rp));
                                            lemma_sorted_mid(head, rk, e + rp);
                                            lemma_all_below_snoc(head, rk, *key);
                                            assert(whole =~= left_part(lefts@) + node_seq(*t)
                                                + right_part(rights@));
                                        }
                                    },
                                }
                            },
                            _ => {
                                // Zig: link the top to the left assembly.
                                proof {
                                    lemma_assembled_zig_right(ls0, t0, rs0, *key);
                                }
                                lefts.push(t);
                                t = right;
                                proof {
                                    passes = passes + 1;
                                }
                                proof {
                                    assert(lefts@.drop_last() =~= ls0);
                                    let head = lp + a;
                                    assert(left_part(lefts@) =~= head + seq![tk]);
                                    assert(whole =~= head + seq![tk] + (d + seq![rk] + e + rp));
                                    lemma_sorted_mid(head, tk, d + seq![rk] + e + rp);
                                    lemma_all_below_snoc(head, tk, *key);
                                    assert(whole =~= left_part(lefts@) + node_seq(*t)
                                        + right_part(rights@));
                                }
                            },
                        }
                    },
                }
            },
        }
    }
    // Hang the assemblies under the new root: the left assembly takes the
    // root's left subtree at its far right, the right assembly takes the
    // root's right subtree at its far left.
    let ghost lp_full = left_part(lefts@);
    let ghost rp_full = right_part(rights@);
    let ghost tl = seq_of(t.left);
    let ghost tr = seq_of(t.right);
    let ghost left_full = fill_left(lefts@, t.left);
    let ghost right_full = fill_right(rights@, t.right);
    let cur_left = hang_left(lefts, t.left.take());
    let cur_right = hang_right(rights, t.right.take());
    t.left = cur_left;
    t.right = cur_right;
    proof {
        lemma_cmp_agrees::<T>();
        assert(seq_of(t.left) =~= lp_full + tl);
        assert(seq_of(t.right) =~= tr + rp_full);
        assert(node_seq(*t) =~= whole);
        assert(t.left == left_full);
        assert(t.right == right_full);
    }
    (Some(t), Ghost(passes))
}

/// In a sorted subtree splayed at `k`, a key equal to `k` is present
/// exactly when the root holds one.
pub(crate) proof fn lemma_splayed_contains<T: Ord>(n: Node<T>, k: T)
    requires
        lawful_order::<T>(),
        sorted(node_seq(n)),
        splayed_at(n, k),
    ensures
        has_key(node_seq(n), k) <==> key_equiv(n.key, k),
{
    lemma_key_order::<T>();
    let l = seq_of(n.left);
    let r = seq_of(n.right);
    let s = node_seq(n);
    lemma_sorted_mid(l, n.key, r);
    if key_equiv(n.key, k) {
        assert(s[l.len() as int] == n.key);
    } else if has_key(s, k) {
        let i = choose|i: int| 0 <= i < s.len() && key_equiv(#[trigger] s[i], k);
        if i < l.len() {
            assert(s[i] == l[i]);
            if key_lt(k, n.key) {
                assert(key_lt(l[i], k));
            } else {
                lemma_key_equiv_subst(l[i], k, n.key);
            }
        } else if i > l.len() {
            assert(s[i] == r[i - l.len() - 1]);
            if key_lt(n.key, k) {
                assert(key_lt(k, r[i - l.len() - 1]));
            } else {
                lemma_key_equiv_subst(r[i - l.len() - 1], k, n.key);
            }
        }
    }
}

/// `t` after rotating left along its right spine until the root has no
/// right child: the greatest key ends at the root.
pub(crate) open spec fn rotate_max<T: Ord>(t: Node<T>) -> Node<T>
    decreases t.right,
{
    match t.right {
        None => t,
        Some(r) => rotate_max(
            Node {
                key: r.key,
                left: Some(Box::new(Node { key: t.key, left: t.left, right: r.left })),
                right: r.right,
            },
        ),
    }
}

/// `t` after rotating right along its left spine until the root has no
/// left child: the least key ends at the root.
pub(crate) open spec fn rotate_min<T: Ord>(t: Node<T>) -> Node<T>
    decreases t.left,
{
    match t.left {
        None => t,
        Some(l) => rotate_min(
            Node {
                key: l.key,
                left: l.left,
                right: Some(Box::new(Node { key: t.key, left: l.right, right: t.right })),
            },
        ),
    }
}

/// The two trees that splitting `link` at `k` makes: splay for `k`, then
/// cut the root off from the side of `k` it does not belong to.
pub(crate) open spec fn split_result<T: Ord>(link: Link<T>, k: T) -> (Link<T>, Link<T>) {
    match splay_result(link, k) {
        None => (None, None),
        Some(t) => if key_lt(k, t.key) {
            (t.left, Some(Box::new(Node { key: t.key, left: None, right: t.right })))
        } else {
            (Some(Box::new(Node { key: t.key, left: t.left, right: None })), t.right)
        },
    }
}

/// The tree that joining `left` and `right` makes: where both are there,
/// the greatest key of `left` rotates to its root and takes `right` as its
/// right subtree; otherwise the one that is there.
pub(crate) open spec fn merge_result<T: Ord>(left: Link<T>, right: Link<T>) -> Link<T> {
    match left {
        None => right,
        Some(l) => match right {
            None => left,
            Some(_) => {
                let m = rotate_max(*l);
                Some(Box::new(Node { key: m.key, left: m.left, right: right }))
            },
        },
    }
}

/// Brings the greatest key of `t` to the root by rotating left along the
/// right spine.
pub(crate) fn splay_max<T: Ord>(t: Box<Node<T>>) -> (res: Box<Node<T>>)
    ensures
        node_seq(*res) == node_seq(*t),
        res.right is None,
        *res == rotate_max(*t),
{
    let ghost whole = node_seq(*t);
    let ghost target = rotate_max(*t);
    let mut t = t;
    while t.right.is_some()
        invariant
            node_seq(*t) == whole,
            rotate_max(*t) == target,
        decreases seq_of(t.right).len(),
    {
        let ghost a = seq_of(t.left);
        let ghost tk = t.key;
        let mut right = t.right.take().unwrap();
        let ghost d = seq_of(right.left);
        let ghost rk = right.key;
        let ghost e = seq_of(right.right);
        assert(whole =~= a + seq![tk] + (d + seq![rk] + e));
        t.right = right.left.take();
        right.left = Some(t);
        t = right;
        assert(node_seq(*t) =~= (a + seq![tk] + d) + seq![rk] + e);
    }
    t
}

/// Splits `root` into the keys at most `key` and the keys above `key`,
/// splaying at `key` first.
pub(crate) fn split_inner<T: Ord>(root: Link<T>, key: &T) -> (res: (Link<T>, Link<T>))
    requires
        lawful_order::<T>(),
        sorted(seq_of(root)),
    ensures
        seq_of(res.0) + seq_of(res.1) == seq_of(root),
        all_at_most(seq_of(res.0), *key),
        all_above(seq_of(res.1), *key),
        root is Some ==> (res.0 matches Some(n) && n.right is None) || (res.1 matches Some(n)
            && n.left is None),
        res == split_result(root, *key),
{
    proof {
        lemma_cmp_agrees::<T>();
    }
    match splay(root, key).0 {
        None => (None, None),
        Some(mut t) => {
            let ghost l = seq_of(t.left);
            let ghost tk = t.key;
            let ghost r = seq_of(t.right);
            proof {
                lemma_sorted_mid(l, tk, r);
            }
            match t.key.cmp(key) {
                Ordering::Greater => {
                    let left = t.left.take();
                    proof {
                        lemma_all_above_cons(tk, r, *key);
                        assert(seq_of(t.left) =~= Seq::<T>::empty());
                        assert(seq_of(Some(t)) =~= seq![tk] + r);
                        assert(l + (seq![tk] + r) =~= l + seq![tk] + r);
                    }
                    (left, Some(t))
                },
                _ => {
                    let right = t.right.take();
                    proof {
                        assert(seq_of(t.right) =~= Seq::<T>::empty());
                        assert(seq_of(Some(t)) =~= l + seq![tk]);
                        assert forall|i: int| 0 <= i < (l + seq![tk]).len() implies !key_lt(
                            *key,
                            #[trigger] (l + seq![tk])[i],
                        ) by {
                            if i < l.len() {
                                assert((l + seq![tk])[i] == l[i]);
                                if key_lt(tk, *key) {
                                    lemma_key_lt_trans(l[i], tk, *key);
                                } else {
                                    lemma_key_equiv_subst(tk, *key, l[i]);
                                }
                            }
                        }
                        assert forall|i: int| 0 <= i < r.len() implies key_lt(*key, #[trigger] r[i]) by {
                            if !key_lt(tk, *key) {
                                lemma_key_equiv_subst(tk, *key, r[i]);
                            }
                        }
                    }
                    (Some(t), right)
                },
            }
        },
    }
}

/// Joins two trees whose keys come one after the other: the greatest key of
/// `left` becomes the root and takes `right` as its right subtree.
pub(crate) fn merge_trees<T: Ord>(left: Link<T>, right: Link<T>) -> (res: Link<T>)
    ensures
        seq_of(res) == seq_of(left) + seq_of(right),
        left is Some && right is Some ==> (res matches Some(n) && n.key == seq_of(left).last()),
        left is None ==> res == right,
        right is None ==> res == left,
        res == merge_result(left, right),
{
    match (left, right) {
        (None, r) => {
            assert(Seq::<T>::empty() + seq_of(r) =~= seq_of(r));
            r
        },
        (l, None) => {
            assert(seq_of(l) + Seq::<T>::empty() =~= seq_of(l));
            l
        },
        (Some(l), right) => {
            let mut new_left = splay_max(l);
            let ghost ls = seq_of(new_left.left);
            let ghost lk = new_left.key;
            new_left.right = right;
            assert(seq_of(Some(new_left)) =~= (ls + seq![lk] + Seq::<T>::empty()) + seq_of(right));
            assert((ls + seq![lk] + Seq::<T>::empty()).last() == lk);
            Some(new_left)
        },
    }
}

/// Appends the keys of `link`, in order, to `out`.
pub(crate) fn inorder_collect<'a, T: Ord>(link: &'a Link<T>, out: &mut Vec<&'a T>)
    ensures
        derefs(final(out)@) == derefs(old(out)@) + seq_of(*link),
    decreases seq_of(*link).len(),
{
    if let Some(node) = link {
        inorder_collect(&node.left, out);
        let ghost mid = out@;
        out.push(&node.key);
        assert(derefs(out@) =~= derefs(mid) + seq![node.key]);
        inorder_collect(&node.right, out);
        assert(derefs(old(out)@) + seq_of(*link) =~= derefs(old(out)@) + seq_of(node.left)
            + seq![node.key] + seq_of(node.right));
    } else {
        assert(derefs(old(out)@) + seq_of(*link) =~= derefs(old(out)@));
    }
}

/// The number of keys in `link`.
pub(crate) fn inorder_count<T: Ord>(link: &Link<T>) -> (n: usize)
    requires
        seq_of(*link).len() <= usize::MAX,
    ensures
        n == seq_of(*link).len(),
    decreases seq_of(*link).len(),
{
    match link {
        None => 0,
        Some(n) => 1 + inorder_count(&n.left) + inorder_count(&n.right),
    }
}

/// Where the splayed root holds a key equal to `k`, the keys below and
/// above `k` are the root's two subtrees.
pub(crate) proof fn lemma_root_hit<T: Ord>(n: Node<T>, k: T)
    requires
        lawful_order::<T>(),
        sorted(node_seq(n)),
        key_equiv(n.key, k),
    ensures
        has_key(node_seq(n), k),
        below(node_seq(n), k) == seq_of(n.left),
        above(node_seq(n), k) == seq_of(n.right),
        sorted(seq_of(n.left) + seq_of(n.right)),
{
    let l = seq_of(n.left);
    let r = seq_of(n.right);
    let m = n.key;
    assert(node_seq(n) == l + seq![m] + r);
    assert(has_key(node_seq(n), k)) by {
        assert(node_seq(n)[l.len() as int] == m);
    }
    assert(below(node_seq(n), k) == l && above(node_seq(n), k) == r) by {
        lemma_sorted_mid(l, m, r);
        assert forall|i: int| 0 <= i < l.len() implies key_lt(#[trigger] l[i], k) by {
            lemma_key_equiv_subst(m, k, l[i]);
        }
        assert forall|i: int| 0 <= i < r.len() implies key_lt(k, #[trigger] r[i]) by {
            lemma_key_equiv_subst(m, k, r[i]);
        }
        lemma_filters_hit(l, m, r, k);
    }
    assert(sorted(l + r)) by {
        lemma_sorted_drop_mid(l, m, r);
    }
}

/// Where the splayed root holds no key equal to `k`, no key equal to `k` is
/// present, and the keys below and above `k` make up the whole.
pub(crate) proof fn lemma_root_miss<T: Ord>(n: Node<T>, k: T)
    requires
        lawful_order::<T>(),
        sorted(node_seq(n)),
        splayed_at(n, k),
        !key_equiv(n.key, k),
    ensures
        !has_key(node_seq(n), k),
        below(node_seq(n), k) + above(node_seq(n), k) == node_seq(n),
{
    assert(!has_key(node_seq(n), k)) by {
        lemma_splayed_contains(n, k);
    }
    let l = seq_of(n.left);
    let rk = n.key;
    let r = seq_of(n.right);
    if key_lt(rk, k) {
        assert(node_seq(n) == (l + seq![rk]) + r);
        assert(below(node_seq(n), k) == l + seq![rk] && above(node_seq(n), k) == r) by {
            lemma_sorted_mid(l, rk, r);
            lemma_all_below_snoc(l, rk, k);
            lemma_filters_gap(l + seq![rk], r, k);
        }
    } else {
        assert(node_seq(n) == l + (seq![rk] + r));
        assert(below(node_seq(n), k) == l && above(node_seq(n), k) == seq![rk] + r) by {
            lemma_sorted_mid(l, rk, r);
            lemma_all_above_cons(rk, r, k);
            lemma_filters_gap(l, seq![rk] + r, k);
        }
    }
}

/// Where no key equal to `k` is in sorted `s`, and `s` is cut into `sl` (keys at
/// most `k`) and `sr` (keys above `k`), putting `k` between them keeps the
/// keys sorted and inserts `k` where it belongs.
pub(crate) proof fn lemma_gap_join<T: Ord>(s: Seq<T>, sl: Seq<T>, sr: Seq<T>, k: T)
    requires
        lawful_order::<T>(),
        sorted(s),
        !has_key(s, k),
        sl + sr == s,
        all_at_most(sl, k),
        all_above(sr, k),
    ensures
        below(s, k) == sl,
        above(s, k) == sr,
        sorted(sl + seq![k] + sr),
{
    assert(all_below(sl, k)) by {
        lemma_key_order::<T>();
        assert forall|i: int| 0 <= i < sl.len() implies key_lt(#[trigger] sl[i], k) by {
            assert(s[i] == sl[i]);
            assert(!key_equiv(s[i], k));
        }
    }
    assert(sorted(sl) && sorted(sr)) by {
        lemma_sorted_concat(sl, sr);
    }
    assert(below(s, k) == sl && above(s, k) == sr) by {
        lemma_filters_gap(sl, sr, k);
    }
    assert(sorted(sl + seq![k] + sr)) by {
        lemma_sorted_join(sl, k, sr);
    }
}

/// Where the splayed root holds no key equal to `k`, it holds a key next to
/// where `k` would stand.
pub(crate) proof fn lemma_splayed_nearest<T: Ord>(n: Node<T>, k: T)
    requires
        lawful_order::<T>(),
        sorted(node_seq(n)),
        splayed_at(n, k),
        !key_equiv(n.key, k),
    ensures
        nearest(node_seq(n), n.key, k),
{
    lemma_key_order::<T>();
    let l = seq_of(n.left);
    let r = n.key;
    let rt = seq_of(n.right);
    let s = node_seq(n);
    lemma_sorted_mid(l, r, rt);
    assert(s[l.len() as int] == r);
    assert forall|i: int| 0 <= i < s.len() implies !(key_lt(r, #[trigger] s[i]) && key_lt(s[i], k))
        && !(key_lt(k, s[i]) && key_lt(s[i], r)) by {
        if i < l.len() {
            assert(s[i] == l[i]);
            assert(key_lt(l[i], r));
            if key_lt(k, r) {
                assert(key_lt(l[i], k));
            } else if key_lt(k, l[i]) {
                lemma_key_lt_trans(k, l[i], r);
            }
        } else if i > l.len() {
            assert(s[i] == rt[i - l.len() - 1]);
            assert(key_lt(r, rt[i - l.len() - 1]));
            if key_lt(r, k) {
                assert(key_lt(k, rt[i - l.len() - 1]));
            } else if key_lt(rt[i - l.len() - 1], k) {
                lemma_key_lt_trans(r, rt[i - l.len() - 1], k);
            }
        }
    }
}

} // verus!
