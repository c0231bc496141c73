//! What a splay costs, measured against a potential.
//!
//! The potential of a tree is the sum, over its nodes, of the base-2
//! logarithm of the number of nodes in the node's subtree. To stay with
//! whole numbers the statements here are made of two raised to it: the
//! tree's `weight`, the product of those subtree sizes. A splay of a tree of
//! `n` nodes that makes `p` passes and turns weight `w` into `w'` satisfies
//! `2^p * w' <= 2 * n^4 * w`, that is `p + potential' - potential <=
//! 4 * log2(n) + 1`: its amortized cost is logarithmic.
use vstd::prelude::*;
use crate::order::key_lt;
use crate::node::{Link, Node, seq_of, top_down, splay_steps, splay_result};

verus! {

/// Two raised to `e`.
pub open spec fn two_to(e: nat) -> nat
    decreases e,
{
    if e == 0 {
        1
    } else {
        2 * two_to((e - 1) as nat)
    }
}

/// The number of nodes of a subtree.
pub(crate) open spec fn size<T: Ord>(link: Link<T>) -> nat {
    seq_of(link).len()
}

/// The product, over the nodes of a subtree, of the number of nodes under
/// each (the node itself included).
pub(crate) open spec fn weight<T: Ord>(link: Link<T>) -> nat
    decreases link,
{
    match link {
        None => 1,
        Some(n) => weight(n.left) * weight(n.right) * size(link),
    }
}

/// The subtree rooted at `t`.
pub(crate) open spec fn tree<T: Ord>(t: Node<T>) -> Link<T> {
    Some(Box::new(t))
}

/// The top-down splay for `k` at `t` meets the potential bound: the parts it
/// leaves on either side of the new root hold all keys but one, and two
/// raised to its passes, times their weights, is at most `2 * n^3` times the
/// weight of `t`.
pub(crate) open spec fn cost_bound<T: Ord>(t: Node<T>, k: T) -> bool {
    let (a, x, b) = top_down(t, k);
    let n = size(tree(t));
    &&& size(a) + size(b) + 1 == n
    &&& two_to(splay_steps(t, k)) * (weight(a) * weight(b)) <= 2 * (n * n * n) * weight(tree(t))
}

/// A weight is at least one.
pub(crate) proof fn lemma_weight_pos<T: Ord>(link: Link<T>)
    ensures
        weight(link) >= 1,
    decreases link,
{
    if let Some(n) = link {
        lemma_weight_pos(n.left);
        lemma_weight_pos(n.right);
        let (x, y, z) = (weight(n.left), weight(n.right), size(link));
        assert(z >= 1);
        assert(x * y * z >= 1) by (nonlinear_arith)
            requires
                x >= 1,
                y >= 1,
                z >= 1,
        ;
    }
}

/// The size and weight of a node, from those of its subtrees.
proof fn lemma_node<T: Ord>(t: Node<T>)
    ensures
        size(tree(t)) == size(t.left) + size(t.right) + 1,
        weight(tree(t)) == weight(t.left) * weight(t.right) * size(tree(t)),
        weight(t.left) >= 1,
        weight(t.right) >= 1,
{
    lemma_weight_pos(t.left);
    lemma_weight_pos(t.right);
}

/// Products of non-negative factors grow with each factor.
pub(crate) proof fn lemma_mul_le(a: nat, b: nat, c: nat, d: nat)
    requires
        a <= b,
        c <= d,
    ensures
        a * c <= b * d,
{
    assert(a * c <= b * d) by (nonlinear_arith)
        requires
            a <= b,
            c <= d,
    ;
}

/// Two parts that together fit in `n`: four times their product is at most
/// `n` squared.
proof fn lemma_halves(x: nat, y: nat, n: nat)
    requires
        x + y <= n,
    ensures
        4 * (x * y) <= n * n,
{
    assert(4 * (x * y) <= n * n) by (nonlinear_arith)
        requires
            x + y <= n,
    ;
}

/// `m^3` is at most `n^2 * p` where `m` is at most both `n` and `p`.
proof fn lemma_cube_le(m: nat, n: nat, p: nat)
    requires
        m <= n,
        m <= p,
    ensures
        m * m * m <= (n * n) * p,
{
    lemma_mul_le(m, n, m, n);
    lemma_mul_le(m * m, n * n, m, p);
}

/// One step of the bound: where the rest of the splay met it at size `m`,
/// and the step's own factors `e` against `f` make up for `c`, the whole
/// meets it at size `n`.
proof fn lemma_combine(c: nat, x: nat, m: nat, wm: nat, e: nat, f: nat, g: nat, n: nat)
    requires
        x <= 2 * (m * m * m) * wm,
        c * (m * m * m) * e <= (n * n * n) * f,
    ensures
        c * x * (e * g) <= 2 * (n * n * n) * (wm * f * g),
{
    let m3 = m * m * m;
    let n3 = n * n * n;
    lemma_mul_le(x, 2 * m3 * wm, c * e * g, c * e * g);
    assert(c * x * (e * g) == x * (c * e * g)) by (nonlinear_arith);
    assert((2 * m3 * wm) * (c * e * g) == 2 * wm * g * (c * m3 * e)) by (nonlinear_arith);
    lemma_mul_le(2 * wm * g, 2 * wm * g, c * m3 * e, n3 * f);
    assert(2 * wm * g * (n3 * f) == 2 * n3 * (wm * f * g)) by (nonlinear_arith);
}

/// The size factors of a zig-zig step.
proof fn lemma_zigzig_sizes(m: nat, p: nat, z: nat, sb: nat, n: nat)
    requires
        m < p,
        p <= n,
        sb <= n,
        m + z <= n,
    ensures
        2 * (m * m * m) * (sb * z) <= (n * n * n) * (n * p),
{
    lemma_halves(m, z, n);
    lemma_mul_le(m, n, m, p);
    lemma_mul_le(m * m, n * p, sb, n);
    lemma_mul_le(m * m * sb, n * p * n, 4 * (m * z), n * n);
    assert(2 * (2 * (m * m * m) * (sb * z)) == m * m * sb * (4 * (m * z))) by (nonlinear_arith);
    assert(n * p * n * (n * n) == (n * n * n) * (n * p)) by (nonlinear_arith);
}

/// The size factors of a zig followed by a zig the other way.
proof fn lemma_zigzag_sizes(m: nat, q: nat, sa: nat, sb: nat, n: nat)
    requires
        m < q,
        m <= n,
        sa + sb <= n,
    ensures
        4 * (m * m * m) * (sa * sb) <= (n * n * n) * (n * q),
{
    lemma_halves(sa, sb, n);
    lemma_cube_le(m, n, q);
    lemma_mul_le(m * m * m, n * n * q, 4 * (sa * sb), n * n);
    assert(4 * (m * m * m) * (sa * sb) == (m * m * m) * (4 * (sa * sb))) by (nonlinear_arith);
    assert(n * n * q * (n * n) == (n * n * n) * (n * q)) by (nonlinear_arith);
}

/// The size factors of a zig followed by a zig-zig the other way.
proof fn lemma_zig_zigzig_sizes(m: nat, r: nat, u: nat, v: nat, sa: nat, sb: nat, n: nat)
    requires
        m < v,
        m <= n,
        r <= u,
        sa + sb <= n,
    ensures
        4 * (m * m * m) * (r * (sa * sb)) <= (n * n * n) * (n * (u * v)),
{
    lemma_halves(sa, sb, n);
    lemma_cube_le(m, n, v);
    lemma_mul_le(m * m * m, n * n * v, r, u);
    lemma_mul_le(m * m * m * r, n * n * v * u, 4 * (sa * sb), n * n);
    assert(4 * (m * m * m) * (r * (sa * sb)) == (m * m * m * r) * (4 * (sa * sb))) by (nonlinear_arith);
    assert(n * n * v * u * (n * n) == (n * n * n) * (n * (u * v))) by (nonlinear_arith);
}

/// A splay that stops at once, at `t` itself.
proof fn lemma_cost_stop<T: Ord>(t: Node<T>, k: T)
    requires
        top_down(t, k) == (t.left, t.key, t.right),
        splay_steps(t, k) == 1,
    ensures
        cost_bound(t, k),
{
    lemma_node(t);
    let n = size(tree(t));
    let g = weight(t.left) * weight(t.right);
    reveal_with_fuel(two_to, 2);
    assert(two_to(1) == 2);
    assert(1 <= n * n * n) by (nonlinear_arith)
        requires
            n >= 1,
    ;
    assert(g <= g * n) by (nonlinear_arith)
        requires
            n >= 1,
    ;
    lemma_mul_le(2, 2 * (n * n * n), g, g * n);
    assert(weight(tree(t)) == g * n);
}

/// A step whose splay ends with it, where its factors make up for `c`.
proof fn lemma_terminal(c: nat, e: nat, f: nat, g: nat, n: nat)
    requires
        c * e <= 2 * (n * n * n) * f,
    ensures
        c * (e * g) <= 2 * (n * n * n) * (f * g),
{
    lemma_mul_le(c * e, 2 * (n * n * n) * f, g, g);
    assert(c * (e * g) == c * e * g) by (nonlinear_arith);
    assert(2 * (n * n * n) * f * g == 2 * (n * n * n) * (f * g)) by (nonlinear_arith);
}

/// A zig-zig to the left whose path ends at the child.
proof fn lemma_cost_zigzig_end_left<T: Ord>(t: Node<T>, l: Node<T>, k: T)
    requires
        key_lt(k, t.key),
        t.left == tree(l),
        key_lt(k, l.key),
        l.left is None,
    ensures
        cost_bound(t, k),
{
    let rn = Node { key: t.key, left: l.right, right: t.right };
    assert(top_down(t, k) == (None::<Box<Node<T>>>, l.key, tree(rn)));
    assert(splay_steps(t, k) == 1);
    lemma_node(t);
    lemma_node(l);
    lemma_node(rn);
    let n = size(tree(t));
    let (sl, sr) = (size(tree(l)), size(tree(rn)));
    let (wb, wc) = (weight(l.right), weight(t.right));
    reveal_with_fuel(two_to, 2);
    assert(2 * sr <= 2 * (n * n * n) * (sl * n)) by (nonlinear_arith)
        requires
            sr <= n,
            sl >= 1,
            n >= 1,
    ;
    lemma_terminal(2, sr, sl * n, wb * wc, n);
    assert(weight(tree(rn)) == wb * wc * sr);
    assert(weight(tree(l)) == 1 * wb * sl);
    assert(two_to(1) * (1 * (wb * wc * sr)) == 2 * (sr * (wb * wc)));
    assert((1 * wb * sl) * wc * n == (sl * n) * (wb * wc)) by (nonlinear_arith);
}

/// A zig-zig to the left, then the rest of the splay below the grandchild.
proof fn lemma_cost_zigzig_left<T: Ord>(t: Node<T>, l: Node<T>, ll: Node<T>, k: T)
    requires
        key_lt(k, t.key),
        t.left == tree(l),
        key_lt(k, l.key),
        l.left == tree(ll),
        cost_bound(ll, k),
    ensures
        cost_bound(t, k),
{
    let (a, x, b) = top_down(ll, k);
    let rn = Node { key: t.key, left: l.right, right: t.right };
    let bn = Node { key: l.key, left: b, right: tree(rn) };
    assert(top_down(t, k) == (a, x, tree(bn)));
    let st = splay_steps(ll, k);
    assert(splay_steps(t, k) == 1 + st);
    lemma_node(t);
    lemma_node(l);
    lemma_node(rn);
    lemma_node(bn);
    lemma_node(ll);
    lemma_weight_pos(a);
    let n = size(tree(t));
    let m = size(tree(ll));
    let (sl, sr, sbn) = (size(tree(l)), size(tree(rn)), size(tree(bn)));
    let (wa, wb, wbb, wc, wm) = (weight(a), weight(b), weight(l.right), weight(t.right), weight(tree(ll)));
    let xx = two_to(st) * (wa * wb);
    assert(two_to(1 + st) == 2 * two_to(st));
    lemma_zigzig_sizes(m, sl, sr, sbn, n);
    lemma_combine(2, xx, m, wm, sbn * sr, n * sl, wbb * wc, n);
    assert(weight(tree(rn)) == wbb * wc * sr);
    assert(weight(tree(bn)) == wb * (wbb * wc * sr) * sbn);
    assert(weight(tree(l)) == wm * wbb * sl);
    assert(two_to(1 + st) * (wa * (wb * (wbb * wc * sr) * sbn)) == 2 * xx * ((sbn * sr) * (wbb * wc)))
        by (nonlinear_arith)
        requires
            two_to(1 + st) == 2 * two_to(st),
            xx == two_to(st) * (wa * wb),
    ;
    assert((wm * wbb * sl) * wc * n == wm * (n * sl) * (wbb * wc)) by (nonlinear_arith);
}

/// A zig to the left, where the splay then stops at the child.
proof fn lemma_cost_zig_stop_left<T: Ord>(t: Node<T>, l: Node<T>, k: T)
    requires
        key_lt(k, t.key),
        t.left == tree(l),
        !key_lt(k, l.key),
        top_down(l, k) == (l.left, l.key, l.right),
        splay_steps(l, k) == 1,
    ensures
        cost_bound(t, k),
{
    let bn = Node { key: t.key, left: l.right, right: t.right };
    assert(top_down(t, k) == (l.left, l.key, tree(bn)));
    assert(splay_steps(t, k) == 2);
    lemma_node(t);
    lemma_node(l);
    lemma_node(bn);
    let n = size(tree(t));
    let (sl, sbn) = (size(tree(l)), size(tree(bn)));
    let (wa, wb, wc) = (weight(l.left), weight(l.right), weight(t.right));
    reveal_with_fuel(two_to, 3);
    assert(two_to(0) == 1);
    assert(two_to(1) == 2);
    assert(two_to(2) == 4);
    assert(4 * sbn <= 2 * (n * n * n) * (sl * n)) by (nonlinear_arith)
        requires
            sbn <= n,
            sl >= 1,
            n >= 2,
    ;
    lemma_terminal(4, sbn, sl * n, wa * wb * wc, n);
    assert(weight(tree(bn)) == wb * wc * sbn);
    assert(weight(tree(l)) == wa * wb * sl);
    assert(two_to(2) * (wa * (wb * wc * sbn)) == 4 * (sbn * (wa * wb * wc))) by (nonlinear_arith)
        requires
            two_to(2) == 4,
    ;
    assert((wa * wb * sl) * wc * n == (sl * n) * (wa * wb * wc)) by (nonlinear_arith);
}

/// A zig to the left, then a zig-zig to the right whose path ends there.
proof fn lemma_cost_zig_zigzig_end_left<T: Ord>(t: Node<T>, l: Node<T>, w: Node<T>, k: T)
    requires
        key_lt(k, t.key),
        t.left == tree(l),
        !key_lt(k, l.key),
        key_lt(l.key, k),
        l.right == tree(w),
        key_lt(w.key, k),
        w.right is None,
    ensures
        cost_bound(t, k),
{
    let rot = Node { key: l.key, left: l.left, right: w.left };
    let bn = Node { key: t.key, left: None, right: t.right };
    assert(top_down(l, k) == (tree(rot), w.key, None::<Box<Node<T>>>));
    assert(splay_steps(l, k) == 1);
    assert(top_down(t, k) == (tree(rot), w.key, tree(bn)));
    assert(splay_steps(t, k) == 2);
    lemma_node(t);
    lemma_node(l);
    lemma_node(w);
    lemma_node(rot);
    lemma_node(bn);
    let n = size(tree(t));
    let (sl, sw, sr, sbn) = (size(tree(l)), size(tree(w)), size(tree(rot)), size(tree(bn)));
    let (wa, wb, wc) = (weight(l.left), weight(w.left), weight(t.right));
    reveal_with_fuel(two_to, 3);
    assert(two_to(0) == 1);
    assert(two_to(1) == 2);
    assert(two_to(2) == 4);
    assert(4 * (sr * sbn) <= 2 * (n * n * n) * (n * (sl * sw))) by (nonlinear_arith)
        requires
            sr <= sl,
            sbn <= n,
            sw >= 1,
            n >= 2,
    ;
    lemma_terminal(4, sr * sbn, n * (sl * sw), wa * wb * wc, n);
    assert(weight(tree(rot)) == wa * wb * sr);
    assert(weight(tree(bn)) == 1 * wc * sbn);
    assert(weight(tree(w)) == wb * 1 * sw);
    assert(weight(tree(l)) == wa * (wb * 1 * sw) * sl);
    assert(two_to(2) * ((wa * wb * sr) * (1 * wc * sbn)) == 4 * ((sr * sbn) * (wa * wb * wc)))
        by (nonlinear_arith)
        requires
            two_to(2) == 4,
    ;
    assert((wa * (wb * 1 * sw) * sl) * wc * n == (n * (sl * sw)) * (wa * wb * wc)) by (nonlinear_arith);
}

/// A zig to the left, a zig-zig to the right, then the rest of the splay
/// below.
proof fn lemma_cost_zig_zigzig_left<T: Ord>(t: Node<T>, l: Node<T>, w: Node<T>, d: Node<T>, k: T)
    requires
        key_lt(k, t.key),
        t.left == tree(l),
        !key_lt(k, l.key),
        key_lt(l.key, k),
        l.right == tree(w),
        key_lt(w.key, k),
        w.right == tree(d),
        cost_bound(d, k),
    ensures
        cost_bound(t, k),
{
    let (a, x, b) = top_down(d, k);
    let rot = Node { key: l.key, left: l.left, right: w.left };
    let an = Node { key: w.key, left: tree(rot), right: a };
    let bn = Node { key: t.key, left: b, right: t.right };
    let st = splay_steps(d, k);
    assert(top_down(l, k) == (tree(an), x, b));
    assert(splay_steps(l, k) == 1 + st);
    assert(top_down(t, k) == (tree(an), x, tree(bn)));
    assert(splay_steps(t, k) == 2 + st);
    lemma_node(t);
    lemma_node(l);
    lemma_node(w);
    lemma_node(d);
    lemma_node(rot);
    lemma_node(an);
    lemma_node(bn);
    let n = size(tree(t));
    let m = size(tree(d));
    let (sl, sw, sr, san, sbn) = (size(tree(l)), size(tree(w)), size(tree(rot)), size(tree(an)), size(tree(bn)));
    let (wa, wb, wc, wm, wx, wy) = (weight(l.left), weight(w.left), weight(t.right), weight(tree(d)), weight(a), weight(b));
    let xx = two_to(st) * (wx * wy);
    reveal_with_fuel(two_to, 3);
    assert(two_to(2 + st) == 4 * two_to(st));
    lemma_zig_zigzig_sizes(m, sr, sl, sw, san, sbn, n);
    lemma_combine(4, xx, m, wm, sr * (san * sbn), n * (sl * sw), wa * wb * wc, n);
    assert(weight(tree(rot)) == wa * wb * sr);
    assert(weight(tree(an)) == (wa * wb * sr) * wx * san);
    assert(weight(tree(bn)) == wy * wc * sbn);
    assert(weight(tree(w)) == wb * wm * sw);
    assert(weight(tree(l)) == wa * (wb * wm * sw) * sl);
    let w1 = wa * wb;
    let u = w1 * sr * san;
    let v = wc * sbn;
    let xy = wx * wy;
    let e = sr * (san * sbn);
    assert((w1 * sr) * wx * san == wx * u) by (nonlinear_arith)
        requires
            u == w1 * sr * san,
    ;
    assert(wy * wc * sbn == wy * v) by (nonlinear_arith)
        requires
            v == wc * sbn,
    ;
    assert((wx * u) * (wy * v) == xy * (u * v)) by (nonlinear_arith)
        requires
            xy == wx * wy,
    ;
    assert(u * v == e * (w1 * wc)) by (nonlinear_arith)
        requires
            u == w1 * sr * san,
            v == wc * sbn,
            e == sr * (san * sbn),
    ;
    assert(w1 * wc == wa * wb * wc);
    assert(two_to(2 + st) * (xy * (e * (w1 * wc))) == 4 * xx * (e * (w1 * wc))) by (nonlinear_arith)
        requires
            two_to(2 + st) == 4 * two_to(st),
            xx == two_to(st) * xy,
    ;
    let q = wb * wm * sw;
    let sn = sl * n;
    let ac = wa * wc;
    assert((wa * q * sl) * wc * n == q * sn * ac) by (nonlinear_arith)
        requires
            sn == sl * n,
            ac == wa * wc,
    ;
    assert(n * (sl * sw) == sn * sw) by (nonlinear_arith)
        requires
            sn == sl * n,
    ;
    assert(wa * wb * wc == ac * wb) by (nonlinear_arith)
        requires
            ac == wa * wc,
    ;
    assert(q * sn * ac == wm * (sn * sw) * (ac * wb)) by (nonlinear_arith)
        requires
            q == wb * wm * sw,
    ;
}

/// A zig to the left, a zig to the right, then the rest of the splay below.
proof fn lemma_cost_zigzag_left<T: Ord>(t: Node<T>, l: Node<T>, w: Node<T>, k: T)
    requires
        key_lt(k, t.key),
        t.left == tree(l),
        !key_lt(k, l.key),
        key_lt(l.key, k),
        l.right == tree(w),
        !key_lt(w.key, k),
        cost_bound(w, k),
    ensures
        cost_bound(t, k),
{
    let (a, x, b) = top_down(w, k);
    let an = Node { key: l.key, left: l.left, right: a };
    let bn = Node { key: t.key, left: b, right: t.right };
    let st = splay_steps(w, k);
    assert(top_down(l, k) == (tree(an), x, b));
    assert(splay_steps(l, k) == 1 + st);
    assert(top_down(t, k) == (tree(an), x, tree(bn)));
    assert(splay_steps(t, k) == 2 + st);
    lemma_node(t);
    lemma_node(l);
    lemma_node(w);
    lemma_node(an);
    lemma_node(bn);
    let n = size(tree(t));
    let m = size(tree(w));
    let (sl, san, sbn) = (size(tree(l)), size(tree(an)), size(tree(bn)));
    let (wa, wc, wm, wx, wy) = (weight(l.left), weight(t.right), weight(tree(w)), weight(a), weight(b));
    let xx = two_to(st) * (wx * wy);
    reveal_with_fuel(two_to, 3);
    assert(two_to(2 + st) == 4 * two_to(st));
    lemma_zigzag_sizes(m, sl, san, sbn, n);
    lemma_combine(4, xx, m, wm, san * sbn, n * sl, wa * wc, n);
    assert(weight(tree(an)) == wa * wx * san);
    assert(weight(tree(bn)) == wy * wc * sbn);
    assert(weight(tree(l)) == wa * wm * sl);
    let xy = wx * wy;
    let e = (san * sbn) * (wa * wc);
    assert((wa * wx * san) * (wy * wc * sbn) == xy * e) by (nonlinear_arith)
        requires
            xy == wx * wy,
            e == (san * sbn) * (wa * wc),
    ;
    assert(two_to(2 + st) * (xy * e) == 4 * xx * e) by (nonlinear_arith)
        requires
            two_to(2 + st) == 4 * two_to(st),
            xx == two_to(st) * xy,
    ;
    assert((wa * wm * sl) * wc * n == wm * (n * sl) * (wa * wc)) by (nonlinear_arith);
}

/// A zig-zig to the right whose path ends at the child.
proof fn lemma_cost_zigzig_end_right<T: Ord>(t: Node<T>, r: Node<T>, k: T)
    requires
        key_lt(t.key, k),
        !key_lt(k, t.key),
        t.right == tree(r),
        key_lt(r.key, k),
        r.right is None,
    ensures
        cost_bound(t, k),
{
    let rn = Node { key: t.key, left: t.left, right: r.left };
    assert(top_down(t, k) == (tree(rn), r.key, None::<Box<Node<T>>>));
    assert(splay_steps(t, k) == 1);
    lemma_node(t);
    lemma_node(r);
    lemma_node(rn);
    let n = size(tree(t));
    let (sl, sr) = (size(tree(r)), size(tree(rn)));
    let (wb, wc) = (weight(r.left), weight(t.left));
    reveal_with_fuel(two_to, 2);
    assert(two_to(1) == 2);
    assert(2 * sr <= 2 * (n * n * n) * (sl * n)) by (nonlinear_arith)
        requires
            sr <= n,
            sl >= 1,
            n >= 1,
    ;
    lemma_terminal(2, sr, sl * n, wb * wc, n);
    assert(weight(tree(rn)) == wc * wb * sr);
    assert(weight(tree(r)) == wb * 1 * sl);
    assert(two_to(1) * ((wc * wb * sr) * 1) == 2 * (sr * (wb * wc))) by (nonlinear_arith)
        requires
            two_to(1) == 2,
    ;
    assert(wc * (wb * 1 * sl) * n == (sl * n) * (wb * wc)) by (nonlinear_arith);
}

/// A zig-zig to the right, then the rest of the splay below the grandchild.
proof fn lemma_cost_zigzig_right<T: Ord>(t: Node<T>, r: Node<T>, rr: Node<T>, k: T)
    requires
        key_lt(t.key, k),
        !key_lt(k, t.key),
        t.right == tree(r),
        key_lt(r.key, k),
        r.right == tree(rr),
        cost_bound(rr, k),
    ensures
        cost_bound(t, k),
{
    let (a, x, b) = top_down(rr, k);
    let rn = Node { key: t.key, left: t.left, right: r.left };
    let an = Node { key: r.key, left: tree(rn), right: a };
    assert(top_down(t, k) == (tree(an), x, b));
    let st = splay_steps(rr, k);
    assert(splay_steps(t, k) == 1 + st);
    lemma_node(t);
    lemma_node(r);
    lemma_node(rn);
    lemma_node(an);
    lemma_node(rr);
    lemma_weight_pos(b);
    let n = size(tree(t));
    let m = size(tree(rr));
    let (sl, sr, san) = (size(tree(r)), size(tree(rn)), size(tree(an)));
    let (wa, wb, wbb, wc, wm) = (weight(a), weight(b), weight(r.left), weight(t.left), weight(tree(rr)));
    let xx = two_to(st) * (wa * wb);
    assert(two_to(1 + st) == 2 * two_to(st));
    lemma_zigzig_sizes(m, sl, sr, san, n);
    lemma_combine(2, xx, m, wm, san * sr, n * sl, wbb * wc, n);
    assert(weight(tree(rn)) == wc * wbb * sr);
    assert(weight(tree(an)) == (wc * wbb * sr) * wa * san);
    assert(weight(tree(r)) == wbb * wm * sl);
    let u = (wc * wbb * sr) * wa * san;
    let xy = wa * wb;
    let e = (san * sr) * (wbb * wc);
    assert(u * wb == xy * e) by (nonlinear_arith)
        requires
            u == (wc * wbb * sr) * wa * san,
            xy == wa * wb,
            e == (san * sr) * (wbb * wc),
    ;
    assert(two_to(1 + st) * (xy * e) == 2 * xx * e) by (nonlinear_arith)
        requires
            two_to(1 + st) == 2 * two_to(st),
            xx == two_to(st) * xy,
    ;
    assert(wc * (wbb * wm * sl) * n == wm * (n * sl) * (wbb * wc)) by (nonlinear_arith);
}

/// A zig to the right, where the splay then stops at the child.
proof fn lemma_cost_zig_stop_right<T: Ord>(t: Node<T>, r: Node<T>, k: T)
    requires
        key_lt(t.key, k),
        !key_lt(k, t.key),
        t.right == tree(r),
        !key_lt(r.key, k),
        top_down(r, k) == (r.left, r.key, r.right),
        splay_steps(r, k) == 1,
    ensures
        cost_bound(t, k),
{
    let an = Node { key: t.key, left: t.left, right: r.left };
    assert(top_down(t, k) == (tree(an), r.key, r.right));
    assert(splay_steps(t, k) == 2);
    lemma_node(t);
    lemma_node(r);
    lemma_node(an);
    let n = size(tree(t));
    let (sl, san) = (size(tree(r)), size(tree(an)));
    let (wa, wb, wc) = (weight(r.left), weight(r.right), weight(t.left));
    reveal_with_fuel(two_to, 3);
    assert(two_to(0) == 1);
    assert(two_to(1) == 2);
    assert(two_to(2) == 4);
    assert(4 * san <= 2 * (n * n * n) * (sl * n)) by (nonlinear_arith)
        requires
            san <= n,
            sl >= 1,
            n >= 2,
    ;
    lemma_terminal(4, san, sl * n, wa * wb * wc, n);
    assert(weight(tree(an)) == wc * wa * san);
    assert(weight(tree(r)) == wa * wb * sl);
    assert(two_to(2) * ((wc * wa * san) * wb) == 4 * (san * (wa * wb * wc))) by (nonlinear_arith)
        requires
            two_to(2) == 4,
    ;
    assert(wc * (wa * wb * sl) * n == (sl * n) * (wa * wb * wc)) by (nonlinear_arith);
}

/// A zig to the right, then a zig-zig to the left whose path ends there.
proof fn lemma_cost_zig_zigzig_end_right<T: Ord>(t: Node<T>, r: Node<T>, w: Node<T>, k: T)
    requires
        key_lt(t.key, k),
        !key_lt(k, t.key),
        t.right == tree(r),
        !key_lt(r.key, k),
        key_lt(k, r.key),
        r.left == tree(w),
        key_lt(k, w.key),
        w.left is None,
    ensures
        cost_bound(t, k),
{
    let rot = Node { key: r.key, left: w.right, right: r.right };
    let an = Node { key: t.key, left: t.left, right: None };
    assert(top_down(r, k) == (None::<Box<Node<T>>>, w.key, tree(rot)));
    assert(splay_steps(r, k) == 1);
    assert(top_down(t, k) == (tree(an), w.key, tree(rot)));
    assert(splay_steps(t, k) == 2);
    lemma_node(t);
    lemma_node(r);
    lemma_node(w);
    lemma_node(rot);
    lemma_node(an);
    let n = size(tree(t));
    let (sl, sw, sr, san) = (size(tree(r)), size(tree(w)), size(tree(rot)), size(tree(an)));
    let (wa, wb, wc) = (weight(r.right), weight(w.right), weight(t.left));
    reveal_with_fuel(two_to, 3);
    assert(two_to(0) == 1);
    assert(two_to(1) == 2);
    assert(two_to(2) == 4);
    assert(4 * (sr * san) <= 2 * (n * n * n) * (n * (sl * sw))) by (nonlinear_arith)
        requires
            sr <= sl,
            san <= n,
            sw >= 1,
            n >= 2,
    ;
    lemma_terminal(4, sr * san, n * (sl * sw), wa * wb * wc, n);
    assert(weight(tree(rot)) == wb * wa * sr);
    assert(weight(tree(an)) == wc * 1 * san);
    assert(weight(tree(w)) == 1 * wb * sw);
    assert(weight(tree(r)) == (1 * wb * sw) * wa * sl);
    assert(two_to(2) * ((wc * 1 * san) * (wb * wa * sr)) == 4 * ((sr * san) * (wa * wb * wc)))
        by (nonlinear_arith)
        requires
            two_to(2) == 4,
    ;
    assert(wc * ((1 * wb * sw) * wa * sl) * n == (n * (sl * sw)) * (wa * wb * wc)) by (nonlinear_arith);
}

/// A zig to the right, a zig-zig to the left, then the rest of the splay
/// below.
proof fn lemma_cost_zig_zigzig_right<T: Ord>(t: Node<T>, r: Node<T>, w: Node<T>, d: Node<T>, k: T)
    requires
        key_lt(t.key, k),
        !key_lt(k, t.key),
        t.right == tree(r),
        !key_lt(r.key, k),
        key_lt(k, r.key),
        r.left == tree(w),
        key_lt(k, w.key),
        w.left == tree(d),
        cost_bound(d, k),
    ensures
        cost_bound(t, k),
{
    let (a, x, b) = top_down(d, k);
    let rot = Node { key: r.key, left: w.right, right: r.right };
    let bn = Node { key: w.key, left: b, right: tree(rot) };
    let an = Node { key: t.key, left: t.left, right: a };
    let st = splay_steps(d, k);
    assert(top_down(r, k) == (a, x, tree(bn)));
    assert(splay_steps(r, k) == 1 + st);
    assert(top_down(t, k) == (tree(an), x, tree(bn)));
    assert(splay_steps(t, k) == 2 + st);
    lemma_node(t);
    lemma_node(r);
    lemma_node(w);
    lemma_node(d);
    lemma_node(rot);
    lemma_node(an);
    lemma_node(bn);
    let n = size(tree(t));
    let m = size(tree(d));
    let (sl, sw, sr, san, sbn) = (size(tree(r)), size(tree(w)), size(tree(rot)), size(tree(an)), size(tree(bn)));
    let (wa, wb, wc, wm, wx, wy) = (weight(r.right), weight(w.right), weight(t.left), weight(tree(d)), weight(a), weight(b));
    let xx = two_to(st) * (wx * wy);
    reveal_with_fuel(two_to, 3);
    assert(two_to(2 + st) == 4 * two_to(st));
    lemma_zig_zigzig_sizes(m, sr, sl, sw, san, sbn, n);
    lemma_combine(4, xx, m, wm, sr * (san * sbn), n * (sl * sw), wa * wb * wc, n);
    assert(weight(tree(rot)) == wb * wa * sr);
    assert(weight(tree(bn)) == wy * (wb * wa * sr) * sbn);
    assert(weight(tree(an)) == wc * wx * san);
    assert(weight(tree(w)) == wm * wb * sw);
    assert(weight(tree(r)) == (wm * wb * sw) * wa * sl);
    let p = wb * wa * sr;
    let xy = wx * wy;
    let e = sr * (san * sbn);
    let g = wa * wb * wc;
    assert((wc * wx * san) * (wy * p * sbn) == xy * ((wc * san) * (p * sbn))) by (nonlinear_arith)
        requires
            xy == wx * wy,
    ;
    assert((wc * san) * (p * sbn) == e * g) by (nonlinear_arith)
        requires
            p == wb * wa * sr,
            e == sr * (san * sbn),
            g == wa * wb * wc,
    ;
    assert(two_to(2 + st) * (xy * (e * g)) == 4 * xx * (e * g)) by (nonlinear_arith)
        requires
            two_to(2 + st) == 4 * two_to(st),
            xx == two_to(st) * xy,
    ;
    let q = wm * wb * sw;
    let sn = sl * n;
    let ac = wa * wc;
    assert(wc * (q * wa * sl) * n == q * sn * ac) by (nonlinear_arith)
        requires
            sn == sl * n,
            ac == wa * wc,
    ;
    assert(n * (sl * sw) == sn * sw) by (nonlinear_arith)
        requires
            sn == sl * n,
    ;
    assert(wa * wb * wc == ac * wb) by (nonlinear_arith)
        requires
            ac == wa * wc,
    ;
    assert(q * sn * ac == wm * (sn * sw) * (ac * wb)) by (nonlinear_arith)
        requires
            q == wm * wb * sw,
    ;
}

/// A zig to the right, a zig to the left, then the rest of the splay below.
proof fn lemma_cost_zigzag_right<T: Ord>(t: Node<T>, r: Node<T>, w: Node<T>, k: T)
    requires
        key_lt(t.key, k),
        !key_lt(k, t.key),
        t.right == tree(r),
        !key_lt(r.key, k),
        key_lt(k, r.key),
        r.left == tree(w),
        !key_lt(k, w.key),
        cost_bound(w, k),
    ensures
        cost_bound(t, k),
{
    let (a, x, b) = top_down(w, k);
    let bn = Node { key: r.key, left: b, right: r.right };
    let an = Node { key: t.key, left: t.left, right: a };
    let st = splay_steps(w, k);
    assert(top_down(r, k) == (a, x, tree(bn)));
    assert(splay_steps(r, k) == 1 + st);
    assert(top_down(t, k) == (tree(an), x, tree(bn)));
    assert(splay_steps(t, k) == 2 + st);
    lemma_node(t);
    lemma_node(r);
    lemma_node(w);
    lemma_node(an);
    lemma_node(bn);
    let n = size(tree(t));
    let m = size(tree(w));
    let (sl, san, sbn) = (size(tree(r)), size(tree(an)), size(tree(bn)));
    let (wa, wc, wm, wx, wy) = (weight(r.right), weight(t.left), weight(tree(w)), weight(a), weight(b));
    let xx = two_to(st) * (wx * wy);
    reveal_with_fuel(two_to, 3);
    assert(two_to(2 + st) == 4 * two_to(st));
    lemma_zigzag_sizes(m, sl, san, sbn, n);
    lemma_combine(4, xx, m, wm, san * sbn, n * sl, wa * wc, n);
    assert(weight(tree(an)) == wc * wx * san);
    assert(weight(tree(bn)) == wy * wa * sbn);
    assert(weight(tree(r)) == wm * wa * sl);
    let xy = wx * wy;
    let e = (san * sbn) * (wa * wc);
    assert((wc * wx * san) * (wy * wa * sbn) == xy * e) by (nonlinear_arith)
        requires
            xy == wx * wy,
            e == (san * sbn) * (wa * wc),
    ;
    assert(two_to(2 + st) * (xy * e) == 4 * xx * e) by (nonlinear_arith)
        requires
            two_to(2 + st) == 4 * two_to(st),
            xx == two_to(st) * xy,
    ;
    assert(wc * (wm * wa * sl) * n == wm * (n * sl) * (wa * wc)) by (nonlinear_arith);
}

/// Every top-down splay meets the potential bound.
pub(crate) proof fn lemma_top_down_cost<T: Ord>(t: Node<T>, k: T)
    ensures
        cost_bound(t, k),
    decreases t,
{
    if key_lt(k, t.key) {
        match t.left {
            None => lemma_cost_stop(t, k),
            Some(l) => {
                if key_lt(k, l.key) {
                    match l.left {
                        None => lemma_cost_zigzig_end_left(t, *l, k),
                        Some(ll) => {
                            lemma_top_down_cost(*ll, k);
                            lemma_cost_zigzig_left(t, *l, *ll, k);
                        },
                    }
                } else if key_lt(l.key, k) {
                    match l.right {
                        None => lemma_cost_zig_stop_left(t, *l, k),
                        Some(w) => {
                            if key_lt(w.key, k) {
                                match w.right {
                                    None => lemma_cost_zig_zigzig_end_left(t, *l, *w, k),
                                    Some(d) => {
                                        lemma_top_down_cost(*d, k);
                                        lemma_cost_zig_zigzig_left(t, *l, *w, *d, k);
                                    },
                                }
                            } else {
                                lemma_top_down_cost(*w, k);
                                lemma_cost_zigzag_left(t, *l, *w, k);
                            }
                        },
                    }
                } else {
                    lemma_cost_zig_stop_left(t, *l, k);
                }
            },
        }
    } else if key_lt(t.key, k) {
        match t.right {
            None => lemma_cost_stop(t, k),
            Some(r) => {
                if key_lt(r.key, k) {
                    match r.right {
                        None => lemma_cost_zigzig_end_right(t, *r, k),
                        Some(rr) => {
                            lemma_top_down_cost(*rr, k);
                            lemma_cost_zigzig_right(t, *r, *rr, k);
                        },
                    }
                } else if key_lt(k, r.key) {
                    match r.left {
                        None => lemma_cost_zig_stop_right(t, *r, k),
                        Some(w) => {
                            if key_lt(k, w.key) {
                                match w.left {
                                    None => lemma_cost_zig_zigzig_end_right(t, *r, *w, k),
                                    Some(d) => {
                                        lemma_top_down_cost(*d, k);
                                        lemma_cost_zig_zigzig_right(t, *r, *w, *d, k);
                                    },
                                }
                            } else {
                                lemma_top_down_cost(*w, k);
                                lemma_cost_zigzag_right(t, *r, *w, k);
                            }
                        },
                    }
                } else {
                    lemma_cost_zig_stop_right(t, *r, k);
                }
            },
        }
    } else {
        lemma_cost_stop(t, k);
    }
}

/// `b` raised to `e`.
pub open spec fn power(b: nat, e: nat) -> nat
    decreases e,
{
    if e == 0 {
        1
    } else {
        b * power(b, (e - 1) as nat)
    }
}

/// Powers of two multiply by adding their exponents.
pub proof fn lemma_two_to_add(a: nat, b: nat)
    ensures
        two_to(a + b) == two_to(a) * two_to(b),
    decreases a,
{
    if a == 0 {
        assert(two_to(0) == 1);
    } else {
        let a1 = (a - 1) as nat;
        lemma_two_to_add(a1, b);
        assert((a + b - 1) as nat == a1 + b);
        assert(two_to(a + b) == 2 * two_to(a1 + b));
        assert(two_to(a) == 2 * two_to(a1));
        assert(2 * (two_to(a1) * two_to(b)) == (2 * two_to(a1)) * two_to(b)) by (nonlinear_arith);
    }
}

/// Powers of the same base multiply by adding their exponents.
pub proof fn lemma_power_add(x: nat, a: nat, b: nat)
    ensures
        power(x, a + b) == power(x, a) * power(x, b),
    decreases a,
{
    if a == 0 {
        assert(power(x, 0) == 1);
    } else {
        let a1 = (a - 1) as nat;
        lemma_power_add(x, a1, b);
        assert((a + b - 1) as nat == a1 + b);
        assert(power(x, a + b) == x * power(x, a1 + b));
        assert(power(x, a) == x * power(x, a1));
        assert(x * (power(x, a1) * power(x, b)) == (x * power(x, a1)) * power(x, b)) by (nonlinear_arith);
    }
}

/// A weight is at most `m` raised to the number of nodes, where no
/// subtree has more than `m` nodes.
pub(crate) proof fn lemma_weight_le_power<T: Ord>(link: Link<T>, m: nat)
    requires
        size(link) <= m,
    ensures
        weight(link) <= power(m, size(link)),
    decreases link,
{
    if link is None {
        assert(power(m, 0) == 1);
    }
    if let Some(t) = link {
        lemma_node(*t);
        lemma_weight_le_power(t.left, m);
        lemma_weight_le_power(t.right, m);
        let (sl, sr, s) = (size(t.left), size(t.right), size(link));
        lemma_power_add(m, sl, sr);
        lemma_power_add(m, sl + sr, 1);
        assert(power(m, 0) == 1);
        assert(power(m, 1) == m * power(m, 0));
        assert(tree(*t) == link);
        assert(s == sl + sr + 1);
        lemma_mul_le(weight(t.left), power(m, sl), weight(t.right), power(m, sr));
        lemma_mul_le(weight(t.left) * weight(t.right), power(m, sl) * power(m, sr), s, m);
        assert(weight(link) == weight(t.left) * weight(t.right) * s);
    }
}

/// A top-down splay of a tree of `n` nodes keeps `n` nodes, and two raised
/// to its passes, times the weight it leaves, is at most `2 * n^4` times the
/// weight it found.
pub(crate) proof fn lemma_splay_cost<T: Ord>(t: Node<T>, k: T)
    ensures
        size(splay_result(tree(t), k)) == size(tree(t)),
        two_to(splay_steps(t, k)) * weight(splay_result(tree(t), k)) <= 2 * power(size(tree(t)), 4)
            * weight(tree(t)),
{
    lemma_top_down_cost(t, k);
    let (a, x, b) = top_down(t, k);
    let n = size(tree(t));
    let res = Node { key: x, left: a, right: b };
    assert(splay_result(tree(t), k) == tree(res));
    lemma_node(res);
    let p = two_to(splay_steps(t, k));
    let (wa, wb, w) = (weight(a), weight(b), weight(tree(t)));
    assert(power(n, 4) == n * (n * (n * (n * 1)))) by {
        reveal_with_fuel(power, 5);
    }
    lemma_mul_le(p * (wa * wb), 2 * (n * n * n) * w, n, n);
    assert(p * (wa * wb * n) == p * (wa * wb) * n) by (nonlinear_arith);
    assert(2 * (n * n * n) * w * n == 2 * (n * (n * (n * (n * 1)))) * w) by (nonlinear_arith);
}

} // verus!
