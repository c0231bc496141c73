//! The splay tree: a set of keys kept in ascending order, in which every
//! access splays the accessed key to the root.
use vstd::prelude::*;
use std::cmp::Ordering;
use crate::order::{key_equiv, lawful_order, lemma_cmp_agrees};
use crate::seqs::{
    sorted, below, above, at_most, nearest, derefs, has_key, all_before, lemma_sorted_concat,
    lemma_filters_gap, lemma_split_view,
};
use crate::cost::{
    two_to, power, tree, lemma_splay_cost, lemma_two_to_add, lemma_weight_pos, lemma_weight_le_power,
    lemma_mul_le,
};
use crate::node::{
    Link, Node, seq_of, node_seq, splay, splay_result, splay_steps, split_result, merge_result, rotate_min,
    rotate_max, split_inner, merge_trees, inorder_collect,
    inorder_count, lemma_splayed_contains, lemma_splayed_nearest, lemma_root_hit, lemma_root_miss,
    lemma_gap_join,
};

verus! {

/// A splay tree with split and merge operations. Accessing a key splays it
/// to the root by top-down zig, zig-zig and zig-zag steps.
pub struct SplayTree<T: Ord> {
    root: Link<T>,
    size: usize,
}

impl<T: Ord> View for SplayTree<T> {
    type V = Seq<T>;

    /// The keys of the tree, in ascending order.
    closed spec fn view(&self) -> Seq<T> {
        seq_of(self.root)
    }
}

impl<T: Ord> SplayTree<T> {
    /// The tree is a search tree (its keys, read in order, ascend) and its
    /// count of keys is exact.
    #[verifier::type_invariant]
    spec fn wf(self) -> bool {
        &&& sorted(seq_of(self.root))
        &&& self.size == seq_of(self.root).len()
    }

    /// The key at the root, where there is one.
    pub closed spec fn root_key(&self) -> Option<T> {
        match self.root {
            Some(n) => Some(n.key),
            None => None,
        }
    }

    /// The tree as an access to `k` leaves it: its top-down splay for `k`.
    pub closed spec fn splayed_for(&self, k: T) -> SplayTree<T> {
        SplayTree { root: splay_result(self.root, k), size: self.size }
    }

    /// The tree as inserting an absent `k` leaves it: `k` at the root, over
    /// the two trees that splitting the splayed tree at `k` makes.
    pub closed spec fn inserted_for(&self, k: T) -> SplayTree<T> {
        let (l, r) = split_result(splay_result(self.root, k), k);
        SplayTree { root: Some(Box::new(Node { key: k, left: l, right: r })), size: (self.size + 1) as usize }
    }

    /// The tree as deleting a present `k` leaves it: the splayed root's two
    /// subtrees merged.
    pub closed spec fn deleted_for(&self, k: T) -> SplayTree<T> {
        match splay_result(self.root, k) {
            None => *self,
            Some(t) => SplayTree { root: merge_result(t.left, t.right), size: (self.size - 1) as usize },
        }
    }

    /// The two trees that splitting at `k` makes.
    pub closed spec fn split_for(&self, k: T) -> (SplayTree<T>, SplayTree<T>) {
        let (l, r) = split_result(self.root, k);
        (
            SplayTree { root: l, size: seq_of(l).len() as usize },
            SplayTree { root: r, size: seq_of(r).len() as usize },
        )
    }

    /// The tree that merging `left` and `right` makes.
    pub closed spec fn merged_for(left: SplayTree<T>, right: SplayTree<T>) -> SplayTree<T> {
        SplayTree { root: merge_result(left.root, right.root), size: (left.size + right.size) as usize }
    }

    /// The tree as `min` leaves it: rotated until the least key is at the
    /// root.
    pub closed spec fn min_rotated(&self) -> SplayTree<T> {
        match self.root {
            None => *self,
            Some(t) => SplayTree { root: Some(Box::new(rotate_min(*t))), size: self.size },
        }
    }

    /// The tree as `max` leaves it: rotated until the greatest key is at the
    /// root.
    pub closed spec fn max_rotated(&self) -> SplayTree<T> {
        match self.root {
            None => *self,
            Some(t) => SplayTree { root: Some(Box::new(rotate_max(*t))), size: self.size },
        }
    }

    /// The passes that the splay loop makes when an access to `k` splays
    /// this tree: that of `contains(k)`, and of `insert(k)` and `delete(k)`
    /// before they go on.
    pub closed spec fn access_passes(&self, k: T) -> nat {
        match self.root {
            None => 0,
            Some(t) => splay_steps(*t, k),
        }
    }

    /// Two raised to the tree's potential: the product, over its nodes, of
    /// the number of nodes in each node's subtree.
    pub closed spec fn weight(&self) -> nat {
        crate::cost::weight(self.root)
    }

    /// The tree after an access to each key of `ks`, in turn.
    pub closed spec fn accessed(&self, ks: Seq<T>) -> SplayTree<T>
        decreases ks.len(),
    {
        if ks.len() == 0 {
            *self
        } else {
            self.splayed_for(ks[0]).accessed(ks.drop_first())
        }
    }

    /// The passes that the splay loop makes over an access to each key of
    /// `ks`, in turn.
    pub closed spec fn accesses_passes(&self, ks: Seq<T>) -> nat
        decreases ks.len(),
    {
        if ks.len() == 0 {
            0
        } else {
            self.access_passes(ks[0]) + self.splayed_for(ks[0]).accesses_passes(ks.drop_first())
        }
    }

    /// Create a new empty splay tree.
    pub fn new() -> (t: Self)
        ensures
            t@ == Seq::<T>::empty(),
    {
        proof {
            reveal(sorted);
        }
        SplayTree { root: None, size: 0 }
    }

    /// Insert `key`. Returns `true` if the key was newly inserted, `false` if it
    /// was already present.
    pub fn insert(&mut self, key: T) -> (inserted: bool)
        requires
            lawful_order::<T>(),
            !has_key(old(self)@, key) ==> old(self)@.len() < usize::MAX,
        ensures
            sorted(final(self)@),
            inserted == !has_key(old(self)@, key),
            final(self)@ == crate::seqs::inserted(old(self)@, key),
            inserted ==> final(self)@ == below(old(self)@, key) + seq![key] + above(
                old(self)@,
                key,
            ),
            !inserted ==> final(self)@ == old(self)@,
            !inserted ==> *final(self) == old(self).splayed_for(key),
            inserted ==> *final(self) == old(self).inserted_for(key),
            inserted ==> final(self).root_key() == Some(key),
            final(self).root_key() matches Some(r) && key_equiv(r, key),
    {
        proof {
            use_type_invariant(&*self);
        }
        let ghost s = self@;
        let mut taken = SplayTree::new();
        std::mem::swap(&mut taken, self);
        let SplayTree { root, size } = taken;
        let (splayed, _) = splay(root, &key);
        let found = match &splayed {
            None => false,
            Some(r) => match key.cmp(&r.key) {
                Ordering::Equal => true,
                _ => false,
            },
        };
        assert(found <==> (splayed is Some && key_equiv(splayed->0.key, key))) by {
            lemma_cmp_agrees::<T>();
        }
        if found {
            proof {
                lemma_root_hit(*splayed->0, key);
            }
            *self = SplayTree { root: splayed, size };
            return false;
        }
        proof {
            if splayed is Some {
                lemma_root_miss(*splayed->0, key);
            }
        }
        // The key is absent: split the tree at it and make it the new root.
        let (left, right) = split_inner(splayed, &key);
        proof {
            lemma_gap_join(s, seq_of(left), seq_of(right), key);
        }
        let mut new_node = Node::new(key);
        new_node.left = left;
        new_node.right = right;
        *self = SplayTree { root: Some(new_node), size: size + 1 };
        assert(self@ == below(s, key) + seq![key] + above(s, key));
        assert(key_equiv(key, key)) by {
            lemma_cmp_agrees::<T>();
        }
        true
    }

    /// Delete `key`. Returns `true` if found and removed, `false` if absent.
    pub fn delete(&mut self, key: &T) -> (removed: bool)
        requires
            lawful_order::<T>(),
        ensures
            sorted(final(self)@),
            removed == has_key(old(self)@, *key),
            final(self)@ == below(old(self)@, *key) + above(old(self)@, *key),
            !removed ==> *final(self) == old(self).splayed_for(*key),
            removed ==> *final(self) == old(self).deleted_for(*key),
            !removed && old(self)@.len() > 0 ==> (final(self).root_key() matches Some(r) && nearest(
                old(self)@,
                r,
                *key,
            )),
            removed && below(old(self)@, *key).len() > 0 && above(old(self)@, *key).len() > 0
                ==> final(self).root_key() == Some(below(old(self)@, *key).last()),
    {
        proof {
            use_type_invariant(&*self);
        }
        let ghost s = self@;
        let mut taken = SplayTree::new();
        std::mem::swap(&mut taken, self);
        let SplayTree { root, size } = taken;
        let (splayed, _) = splay(root, key);
        match splayed {
            None => {
                proof {
                    lemma_filters_gap(s, s, *key);
                    assert(s + s =~= s);
                }
                *self = SplayTree { root: None, size };
                false
            },
            Some(mut root) => {
                let found = match key.cmp(&root.key) {
                    Ordering::Equal => true,
                    _ => false,
                };
                assert(found <==> key_equiv(root.key, *key)) by {
                    lemma_cmp_agrees::<T>();
                }
                if found {
                    proof {
                        lemma_root_hit(*root, *key);
                    }
                    let left = root.left.take();
                    let right = root.right.take();
                    *self = SplayTree { root: merge_trees(left, right), size: size - 1 };
                    assert(self@ == below(s, *key) + above(s, *key));
                    true
                } else {
                    proof {
                        lemma_root_miss(*root, *key);
                        lemma_splayed_nearest(*root, *key);
                    }
                    *self = SplayTree { root: Some(root), size };
                    false
                }
            },
        }
    }

    /// Check whether `key` is in the tree. Splays the nearest node to the root
    /// as a side effect.
    pub fn contains(&mut self, key: &T) -> (found: bool)
        requires
            lawful_order::<T>(),
        ensures
            final(self)@ == old(self)@,
            sorted(final(self)@),
            *final(self) == old(self).splayed_for(*key),
            found == has_key(old(self)@, *key),
            found ==> (final(self).root_key() matches Some(r) && key_equiv(r, *key)),
            !found && old(self)@.len() > 0 ==> (final(self).root_key() matches Some(r) && nearest(
                old(self)@,
                r,
                *key,
            )),
    {
        proof {
            use_type_invariant(&*self);
        }
        let mut taken = SplayTree::new();
        std::mem::swap(&mut taken, self);
        let SplayTree { root, size } = taken;
        let (splayed, _) = splay(root, key);
        proof {
            if splayed is Some {
                lemma_splayed_contains(*splayed->0, *key);
            }
        }
        let found = match &splayed {
            None => false,
            Some(r) => match key.cmp(&r.key) {
                Ordering::Equal => true,
                _ => false,
            },
        };
        assert(found <==> (splayed is Some && key_equiv(splayed->0.key, *key))) by {
            lemma_cmp_agrees::<T>();
        }
        proof {
            if !found && splayed is Some {
                lemma_splayed_nearest(*splayed->0, *key);
            }
        }
        *self = SplayTree { root: splayed, size };
        found
    }

    /// Return all keys in ascending order.
    pub fn inorder(&self) -> (keys: Vec<&T>)
        ensures
            derefs(keys@) == self@,
            sorted(self@),
    {
        proof {
            use_type_invariant(self);
        }
        let mut out = Vec::with_capacity(self.size);
        inorder_collect(&self.root, &mut out);
        assert(derefs(Seq::<&T>::empty()) + self@ =~= self@);
        out
    }

    /// Number of elements in the tree.
    pub fn len(&self) -> (n: usize)
        ensures
            n == self@.len(),
    {
        proof {
            use_type_invariant(self);
        }
        self.size
    }

    /// Returns `true` if the tree has no elements.
    pub fn is_empty(&self) -> (empty: bool)
        ensures
            empty == (self@.len() == 0),
    {
        proof {
            use_type_invariant(self);
        }
        self.size == 0
    }

    /// Splay the minimum element to the root and return a reference to it.
    pub fn min(&mut self) -> (least: Option<&T>)
        ensures
            final(self)@ == old(self)@,
            sorted(final(self)@),
            *final(self) == old(self).min_rotated(),
            least is None <==> old(self)@.len() == 0,
            least matches Some(k) ==> *k == old(self)@[0] && final(self).root_key() == Some(*k),
    {
        proof {
            use_type_invariant(&*self);
        }
        let ghost s = self@;
        let mut taken = SplayTree::new();
        std::mem::swap(&mut taken, self);
        let SplayTree { root, size } = taken;
        let mut t = match root {
            None => {
                *self = SplayTree { root: None, size };
                return None;
            },
            Some(t) => t,
        };
        let ghost target = rotate_min(*t);
        while t.left.is_some()
            invariant
                node_seq(*t) == s,
                rotate_min(*t) == target,
            decreases seq_of(t.left).len(),
        {
            let ghost tk = t.key;
            let ghost c = seq_of(t.right);
            let mut left = t.left.take().unwrap();
            let ghost a = seq_of(left.left);
            let ghost lk = left.key;
            let ghost b = seq_of(left.right);
            assert(s =~= (a + seq![lk] + b) + seq![tk] + c);
            t.left = left.right.take();
            left.right = Some(t);
            t = left;
            assert(node_seq(*t) =~= a + seq![lk] + (b + seq![tk] + c));
        }
        assert(seq_of(t.left) =~= Seq::<T>::empty());
        assert(s[0] == t.key);
        *self = SplayTree { root: Some(t), size };
        match &self.root {
            Some(n) => Some(&n.key),
            None => None,
        }
    }

    /// Splay the maximum element to the root and return a reference to it.
    pub fn max(&mut self) -> (greatest: Option<&T>)
        ensures
            final(self)@ == old(self)@,
            sorted(final(self)@),
            *final(self) == old(self).max_rotated(),
            greatest is None <==> old(self)@.len() == 0,
            greatest matches Some(k) ==> *k == old(self)@.last() && final(self).root_key() == Some(
                *k,
            ),
    {
        proof {
            use_type_invariant(&*self);
        }
        let ghost s = self@;
        let mut taken = SplayTree::new();
        std::mem::swap(&mut taken, self);
        let SplayTree { root, size } = taken;
        let mut t = match root {
            None => {
                *self = SplayTree { root: None, size };
                return None;
            },
            Some(t) => t,
        };
        let ghost target = rotate_max(*t);
        while t.right.is_some()
            invariant
                node_seq(*t) == s,
                rotate_max(*t) == target,
            decreases seq_of(t.right).len(),
        {
            let ghost a = seq_of(t.left);
            let ghost tk = t.key;
            let mut right = t.right.take().unwrap();
            let ghost d = seq_of(right.left);
            let ghost rk = right.key;
            let ghost e = seq_of(right.right);
            assert(s =~= a + seq![tk] + (d + seq![rk] + e));
            t.right = right.left.take();
            right.left = Some(t);
            t = right;
            assert(node_seq(*t) =~= (a + seq![tk] + d) + seq![rk] + e);
        }
        assert(seq_of(t.right) =~= Seq::<T>::empty());
        assert(s.last() == t.key);
        *self = SplayTree { root: Some(t), size };
        match &self.root {
            Some(n) => Some(&n.key),
            None => None,
        }
    }

    /// Split the tree into `(keys <= key, keys > key)`.
    pub fn split(self, key: &T) -> (parts: (SplayTree<T>, SplayTree<T>))
        requires
            lawful_order::<T>(),
        ensures
            parts == self.split_for(*key),
            parts.0@ == at_most(self@, *key),
            parts.1@ == above(self@, *key),
            sorted(parts.0@),
            sorted(parts.1@),
            self@.len() > 0 ==> (parts.0@.len() > 0 && parts.0.root_key() == Some(parts.0@.last()))
                || (parts.1@.len() > 0 && parts.1.root_key() == Some(parts.1@[0])),
    {
        proof {
            use_type_invariant(&self);
        }
        let ghost s = self@;
        let SplayTree { root, size } = self;
        let (left_root, right_root) = split_inner(root, key);
        proof {
            lemma_split_view(s, seq_of(left_root), seq_of(right_root), *key);
            assert(at_most(s, *key) == seq_of(left_root));
            assert(above(s, *key) == seq_of(right_root));
        }
        proof {
            if left_root is Some && left_root->0.right is None {
                assert(seq_of(left_root->0.right) =~= Seq::<T>::empty());
                assert(seq_of(left_root).last() == left_root->0.key);
            }
            if right_root is Some && right_root->0.left is None {
                assert(seq_of(right_root->0.left) =~= Seq::<T>::empty());
                assert(seq_of(right_root)[0] == right_root->0.key);
            }
        }
        let left_size = inorder_count(&left_root);
        let right_size = size - left_size;
        (
            SplayTree { root: left_root, size: left_size },
            SplayTree { root: right_root, size: right_size },
        )
    }

    /// Merge two trees where every key in `left` is less than every key in
    /// `right`; callers must make sure of that.
    pub fn merge(left: SplayTree<T>, right: SplayTree<T>) -> (merged: SplayTree<T>)
        requires
            all_before(left@, right@),
            left@.len() + right@.len() <= usize::MAX,
        ensures
            merged == Self::merged_for(left, right),
            merged@ == left@ + right@,
            sorted(merged@),
            left@.len() > 0 && right@.len() > 0 ==> merged.root_key() == Some(left@.last()),
    {
        proof {
            use_type_invariant(&left);
            use_type_invariant(&right);
            lemma_sorted_concat(left@, right@);
        }
        let SplayTree { root: left_root, size: left_size } = left;
        let SplayTree { root: right_root, size: right_size } = right;
        SplayTree { root: merge_trees(left_root, right_root), size: left_size + right_size }
    }
}

/// The amortized cost of one access. Where the tree holds `n > 0` keys, an
/// access to `k` keeps `n` keys, and its passes `p` through the splay loop,
/// with the weights `w` before and `w'` after, satisfy
/// `2^p * w' <= 2 * n^4 * w`. Taking logarithms: `p` plus the rise in
/// potential is at most `4 * log2(n) + 1`.
pub proof fn law_access_amortized<T: Ord>(t: SplayTree<T>, k: T)
    requires
        t@.len() > 0,
    ensures
        t.splayed_for(k)@.len() == t@.len(),
        two_to(t.access_passes(k)) * t.splayed_for(k).weight() <= 2 * power(t@.len(), 4) * t.weight(),
{
    let r = t.root.unwrap();
    assert(tree(*r) == t.root);
    lemma_splay_cost(*r, k);
}

/// The tree that a run of accesses leaves holds as many keys, and the
/// weights and passes of the run meet the one-access bound once per access.
proof fn lemma_accesses_weight<T: Ord>(t: SplayTree<T>, ks: Seq<T>)
    requires
        t@.len() > 0,
    ensures
        t.accessed(ks)@.len() == t@.len(),
        two_to(t.accesses_passes(ks)) * t.accessed(ks).weight() <= power(
            2 * power(t@.len(), 4),
            ks.len(),
        ) * t.weight(),
    decreases ks.len(),
{
    let c = 2 * power(t@.len(), 4);
    if ks.len() == 0 {
        assert(two_to(0) == 1);
        assert(power(c, 0) == 1);
    } else {
        let t1 = t.splayed_for(ks[0]);
        let rest = ks.drop_first();
        law_access_amortized(t, ks[0]);
        lemma_accesses_weight(t1, rest);
        let (p0, p1) = (t.access_passes(ks[0]), t1.accesses_passes(rest));
        lemma_two_to_add(p0, p1);
        let (w0, w1, wf) = (t.weight(), t1.weight(), t1.accessed(rest).weight());
        let cr = power(c, rest.len());
        assert(t.accessed(ks) == t1.accessed(rest));
        assert(t.accesses_passes(ks) == p0 + p1);
        assert(power(c, ks.len()) == c * cr);
        lemma_mul_le(two_to(p0), two_to(p0), two_to(p1) * wf, cr * w1);
        lemma_mul_le(cr, cr, two_to(p0) * w1, c * w0);
        assert(two_to(p0) * two_to(p1) * wf == two_to(p0) * (two_to(p1) * wf)) by (nonlinear_arith);
        assert(two_to(p0) * (cr * w1) == cr * (two_to(p0) * w1)) by (nonlinear_arith);
        assert(cr * (c * w0) == c * cr * w0) by (nonlinear_arith);
    }
}

/// The amortized cost of a run of accesses. Over an access to each key of
/// `ks` in turn, on a tree of `n > 0` keys, the passes `p` through the splay
/// loop in all satisfy `2^p <= (2 * n^4)^len(ks) * n^n`: in logarithms,
/// `p <= len(ks) * (4 * log2(n) + 1) + n * log2(n)`.
pub proof fn law_accesses_amortized<T: Ord>(t: SplayTree<T>, ks: Seq<T>)
    requires
        t@.len() > 0,
    ensures
        two_to(t.accesses_passes(ks)) <= power(2 * power(t@.len(), 4), ks.len()) * power(
            t@.len(),
            t@.len(),
        ),
{
    let n = t@.len();
    lemma_accesses_weight(t, ks);
    lemma_weight_pos(t.accessed(ks).root);
    lemma_weight_le_power(t.root, n);
    let (p, wf, w0, cl) = (
        two_to(t.accesses_passes(ks)),
        t.accessed(ks).weight(),
        t.weight(),
        power(2 * power(n, 4), ks.len()),
    );
    lemma_mul_le(p, p, 1, wf);
    lemma_mul_le(cl, cl, w0, power(n, n));
}

impl<T: Ord> Default for SplayTree<T> {
    fn default() -> (t: Self)
        ensures
            t@ == Seq::<T>::empty(),
    {
        Self::new()
    }
}

} // verus!
