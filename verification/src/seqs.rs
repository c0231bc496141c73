//! Sequences of keys in ascending order, and the parts of such a sequence
//! that lie below, at or above a key.
use vstd::prelude::*;
use crate::order::{
    key_lt, key_equiv, lawful_order, lemma_key_order, lemma_key_lt_trans, lemma_key_equiv_subst,
};

verus! {

/// The keys of `s` are in strictly ascending order.
#[verifier::opaque]
pub open spec fn sorted<T: Ord>(s: Seq<T>) -> bool {
    forall|i: int, j: int| 0 <= i < j < s.len() ==> key_lt(s[i], s[j])
}

/// Holds of the keys strictly below `k`.
pub open spec fn lt_pred<T: Ord>(k: T) -> spec_fn(T) -> bool {
    |x: T| key_lt(x, k)
}

/// Holds of the keys strictly above `k`.
pub open spec fn gt_pred<T: Ord>(k: T) -> spec_fn(T) -> bool {
    |x: T| key_lt(k, x)
}

/// Holds of the keys at most `k`.
pub open spec fn le_pred<T: Ord>(k: T) -> spec_fn(T) -> bool {
    |x: T| !key_lt(k, x)
}

/// `r` is a key of `s` next to where `k` stands: no key of `s` lies
/// strictly between `r` and `k`.
pub open spec fn nearest<T: Ord>(s: Seq<T>, r: T, k: T) -> bool {
    &&& s.contains(r)
    &&& forall|i: int|
        0 <= i < s.len() ==> !(key_lt(r, #[trigger] s[i]) && key_lt(s[i], k)) && !(key_lt(k, s[i])
            && key_lt(s[i], r))
}

/// The keys of `s` strictly below `k`, in their order in `s`.
#[verifier::opaque]
pub open spec fn below<T: Ord>(s: Seq<T>, k: T) -> Seq<T> {
    s.filter(lt_pred(k))
}

/// The keys of `s` strictly above `k`, in their order in `s`.
#[verifier::opaque]
pub open spec fn above<T: Ord>(s: Seq<T>, k: T) -> Seq<T> {
    s.filter(gt_pred(k))
}

/// The keys of `s` at most `k`, in their order in `s`.
#[verifier::opaque]
pub open spec fn at_most<T: Ord>(s: Seq<T>, k: T) -> Seq<T> {
    s.filter(le_pred(k))
}

/// `s` with `k` inserted as `insert` does it: unchanged where a key equal
/// to `k` is there, else `k` between the keys below and above it.
pub open spec fn inserted<T: Ord>(s: Seq<T>, k: T) -> Seq<T> {
    if has_key(s, k) {
        s
    } else {
        below(s, k) + seq![k] + above(s, k)
    }
}

/// The sequence of the keys that `refs` refer to.
pub open spec fn derefs<T>(refs: Seq<&T>) -> Seq<T> {
    refs.map_values(|r: &T| *r)
}

/// Every key of `a` is strictly below every key of `b`.
pub open spec fn all_before<T: Ord>(a: Seq<T>, b: Seq<T>) -> bool {
    forall|i: int, j: int| 0 <= i < a.len() && 0 <= j < b.len() ==> key_lt(a[i], b[j])
}

/// Every key of `a` is strictly below `k`.
pub open spec fn all_below<T: Ord>(a: Seq<T>, k: T) -> bool {
    forall|i: int| 0 <= i < a.len() ==> key_lt(#[trigger] a[i], k)
}

/// Every key of `a` is strictly above `k`.
pub open spec fn all_above<T: Ord>(a: Seq<T>, k: T) -> bool {
    forall|i: int| 0 <= i < a.len() ==> key_lt(k, #[trigger] a[i])
}

/// Every key of `a` is at most `k`.
pub open spec fn all_at_most<T: Ord>(a: Seq<T>, k: T) -> bool {
    forall|i: int| 0 <= i < a.len() ==> !key_lt(k, #[trigger] a[i])
}

/// A sequence is sorted exactly when both halves are and the first lies
/// wholly before the second.
pub proof fn lemma_sorted_concat<T: Ord>(a: Seq<T>, b: Seq<T>)
    ensures
        sorted(a + b) <==> (sorted(a) && sorted(b) && all_before(a, b)),
{
    reveal(sorted);
    if sorted(a + b) {
        assert forall|i: int, j: int| 0 <= i < j < a.len() implies key_lt(a[i], a[j]) by {
            assert((a + b)[i] == a[i] && (a + b)[j] == a[j]);
        }
        assert forall|i: int, j: int| 0 <= i < j < b.len() implies key_lt(b[i], b[j]) by {
            assert((a + b)[a.len() + i] == b[i] && (a + b)[a.len() + j] == b[j]);
        }
        assert forall|i: int, j: int| 0 <= i < a.len() && 0 <= j < b.len() implies key_lt(
            a[i],
            b[j],
        ) by {
            assert((a + b)[i] == a[i] && (a + b)[a.len() + j] == b[j]);
        }
    }
    if sorted(a) && sorted(b) && all_before(a, b) {
        assert forall|i: int, j: int| 0 <= i < j < (a + b).len() implies key_lt(
            (a + b)[i],
            (a + b)[j],
        ) by {
            if j < a.len() {
            } else if i < a.len() {
                assert((a + b)[j] == b[j - a.len()]);
            } else {
                assert((a + b)[i] == b[i - a.len()]);
                assert((a + b)[j] == b[j - a.len()]);
            }
        }
    }
}

/// Filtering keeps a sequence whole when every key passes.
pub proof fn lemma_filter_all<T>(s: Seq<T>, p: spec_fn(T) -> bool)
    requires
        forall|i: int| 0 <= i < s.len() ==> p(#[trigger] s[i]),
    ensures
        s.filter(p) == s,
    decreases s.len(),
{
    reveal(Seq::filter);
    if s.len() > 0 {
        lemma_filter_all(s.drop_last(), p);
        assert(s.drop_last().push(s.last()) =~= s);
    }
}

/// Filtering empties a sequence when no key passes.
pub proof fn lemma_filter_none<T>(s: Seq<T>, p: spec_fn(T) -> bool)
    requires
        forall|i: int| 0 <= i < s.len() ==> !p(#[trigger] s[i]),
    ensures
        s.filter(p) == Seq::<T>::empty(),
    decreases s.len(),
{
    reveal(Seq::filter);
    if s.len() > 0 {
        lemma_filter_none(s.drop_last(), p);
    }
}

/// Filtering a concatenation where the first part passes whole and the
/// second part not at all leaves the first part.
pub proof fn lemma_filter_keeps_front<T>(a: Seq<T>, b: Seq<T>, p: spec_fn(T) -> bool)
    requires
        forall|i: int| 0 <= i < a.len() ==> p(#[trigger] a[i]),
        forall|i: int| 0 <= i < b.len() ==> !p(#[trigger] b[i]),
    ensures
        (a + b).filter(p) === a,
{
    Seq::filter_distributes_over_add(a, b, p);
    lemma_filter_all(a, p);
    lemma_filter_none(b, p);
    assert(a + Seq::<T>::empty() =~= a);
}

/// Filtering a concatenation where the first part does not pass at all and
/// the second passes whole leaves the second part.
pub proof fn lemma_filter_keeps_back<T>(a: Seq<T>, b: Seq<T>, p: spec_fn(T) -> bool)
    requires
        forall|i: int| 0 <= i < a.len() ==> !p(#[trigger] a[i]),
        forall|i: int| 0 <= i < b.len() ==> p(#[trigger] b[i]),
    ensures
        (a + b).filter(p) === b,
{
    Seq::filter_distributes_over_add(a, b, p);
    lemma_filter_none(a, p);
    lemma_filter_all(b, p);
    assert(Seq::<T>::empty() + b =~= b);
}

/// Keys below `k` followed by keys not below it: the keys below `k` are
/// the first part.
pub proof fn lemma_below_front<T: Ord>(a: Seq<T>, b: Seq<T>, k: T)
    requires
        all_below(a, k),
        forall|i: int| 0 <= i < b.len() ==> !key_lt(#[trigger] b[i], k),
    ensures
        below(a + b, k) === a,
{
    lemma_filter_keeps_front(a, b, lt_pred(k));
    reveal(below);
}

/// Keys not above `k` followed by keys above it: the keys above `k` are the
/// second part.
pub proof fn lemma_above_back<T: Ord>(a: Seq<T>, b: Seq<T>, k: T)
    requires
        all_at_most(a, k),
        all_above(b, k),
    ensures
        above(a + b, k) === b,
{
    lemma_filter_keeps_back(a, b, gt_pred(k));
    reveal(above);
}

/// Keys at most `k` followed by keys above it: the keys at most `k` are the
/// first part.
pub proof fn lemma_at_most_front<T: Ord>(a: Seq<T>, b: Seq<T>, k: T)
    requires
        all_at_most(a, k),
        all_above(b, k),
    ensures
        at_most(a + b, k) === a,
{
    lemma_filter_keeps_front(a, b, le_pred(k));
    reveal(at_most);
}

/// Keys below `k` are at most `k`.
pub proof fn lemma_below_at_most<T: Ord>(a: Seq<T>, k: T)
    requires
        lawful_order::<T>(),
        all_below(a, k),
    ensures
        all_at_most(a, k),
{
    lemma_key_order::<T>();
}

/// Keys above `k` are not below `k`.
pub proof fn lemma_above_not_below<T: Ord>(b: Seq<T>, k: T)
    requires
        lawful_order::<T>(),
        all_above(b, k),
    ensures
        forall|i: int| 0 <= i < b.len() ==> !key_lt(#[trigger] b[i], k),
{
    lemma_key_order::<T>();
}

/// Where `a` lies below `k` and `b` above it, `a + b` parts at `k` into
/// `a` and `b`.
pub proof fn lemma_filters_gap<T: Ord>(a: Seq<T>, b: Seq<T>, k: T)
    requires
        lawful_order::<T>(),
        all_below(a, k),
        all_above(b, k),
    ensures
        below(a + b, k) === a,
        above(a + b, k) === b,
        at_most(a + b, k) === a,
{
    lemma_below_at_most(a, k);
    lemma_above_not_below(b, k);
    lemma_below_front(a, b, k);
    lemma_above_back(a, b, k);
    lemma_at_most_front(a, b, k);
}

/// Where `a` lies below `k`, `m` compares equal to `k` and `b` lies above
/// `k`, `a + [m] + b` parts at `k` into `a`, `m` and `b`.
pub proof fn lemma_filters_hit<T: Ord>(a: Seq<T>, m: T, b: Seq<T>, k: T)
    requires
        lawful_order::<T>(),
        all_below(a, k),
        key_equiv(m, k),
        all_above(b, k),
    ensures
        below(a + seq![m] + b, k) === a,
        above(a + seq![m] + b, k) === b,
        at_most(a + seq![m] + b, k) === a + seq![m],
{
    let ms = seq![m];
    assert(a + ms + b == a + (ms + b));
    assert(forall|i: int| 0 <= i < (ms + b).len() ==> !key_lt(#[trigger] (ms + b)[i], k)) by {
        lemma_key_order::<T>();
        assert forall|i: int| 0 <= i < (ms + b).len() implies !key_lt(#[trigger] (ms + b)[i], k) by {
            if i > 0 {
                assert((ms + b)[i] == b[i - 1]);
            } else {
                assert((ms + b)[i] == m);
            }
        }
    }
    lemma_below_front(a, ms + b, k);
    assert(all_at_most(a + ms, k)) by {
        lemma_key_order::<T>();
        assert forall|i: int| 0 <= i < (a + ms).len() implies !key_lt(k, #[trigger] (a + ms)[i]) by {
            if i < a.len() {
                assert((a + ms)[i] == a[i]);
            } else {
                assert((a + ms)[i] == m);
            }
        }
    }
    lemma_above_back(a + ms, b, k);
    lemma_at_most_front(a + ms, b, k);
}

/// Where `a` lies at or below `k` and `b` above it, `a + b` parts into
/// the keys at most `k` and the keys above `k`.
pub proof fn lemma_filters_cut<T: Ord>(a: Seq<T>, b: Seq<T>, k: T)
    requires
        all_at_most(a, k),
        all_above(b, k),
    ensures
        at_most(a + b, k) === a,
        above(a + b, k) === b,
{
    lemma_above_back(a, b, k);
    lemma_at_most_front(a, b, k);
}

/// In a sorted `a + [k] + b`, `a` lies below `k` and `b` above it.
pub proof fn lemma_sorted_mid<T: Ord>(a: Seq<T>, k: T, b: Seq<T>)
    requires
        sorted(a + seq![k] + b),
    ensures
        sorted(a),
        sorted(b),
        all_below(a, k),
        all_above(b, k),
{
    reveal(sorted);
    lemma_sorted_concat(a + seq![k], b);
    lemma_sorted_concat(a, seq![k]);
    assert forall|i: int| 0 <= i < a.len() implies key_lt(#[trigger] a[i], k) by {
        assert(seq![k][0] == k);
    }
    assert forall|j: int| 0 <= j < b.len() implies key_lt(k, #[trigger] b[j]) by {
        assert((a + seq![k])[a.len() as int] == k);
    }
}

/// Putting `k0` in front of keys above `k0` keeps them above any `k` below
/// `k0`.
pub proof fn lemma_all_above_cons<T: Ord>(k0: T, rest: Seq<T>, k: T)
    requires
        lawful_order::<T>(),
        key_lt(k, k0),
        all_above(rest, k0),
    ensures
        all_above(seq![k0] + rest, k),
{
    assert forall|i: int| 0 <= i < (seq![k0] + rest).len() implies key_lt(
        k,
        #[trigger] (seq![k0] + rest)[i],
    ) by {
        if i > 0 {
            assert((seq![k0] + rest)[i] == rest[i - 1]);
            lemma_key_lt_trans(k, k0, rest[i - 1]);
        }
    }
}

/// Putting `k0` behind keys below `k0` keeps them below any `k` above `k0`.
pub proof fn lemma_all_below_snoc<T: Ord>(rest: Seq<T>, k0: T, k: T)
    requires
        lawful_order::<T>(),
        key_lt(k0, k),
        all_below(rest, k0),
    ensures
        all_below(rest + seq![k0], k),
{
    assert forall|i: int| 0 <= i < (rest + seq![k0]).len() implies key_lt(
        #[trigger] (rest + seq![k0])[i],
        k,
    ) by {
        if i < rest.len() {
            assert((rest + seq![k0])[i] == rest[i]);
            lemma_key_lt_trans(rest[i], k0, k);
        }
    }
}

/// Keys below `k`, then `k`, then keys above `k` make a sorted sequence
/// when both parts are sorted.
pub proof fn lemma_sorted_join<T: Ord>(a: Seq<T>, k: T, b: Seq<T>)
    requires
        lawful_order::<T>(),
        sorted(a),
        sorted(b),
        all_below(a, k),
        all_above(b, k),
    ensures
        sorted(a + seq![k] + b),
{
    reveal(sorted);
    let m = seq![k];
    assert(sorted(m));
    assert(all_before(a, m)) by {
        assert forall|i: int, j: int| 0 <= i < a.len() && 0 <= j < m.len() implies key_lt(
            a[i],
            m[j],
        ) by {
            assert(key_lt(a[i], k));
        }
    }
    lemma_sorted_concat(a, m);
    assert(all_before(a + m, b)) by {
        assert forall|i: int, j: int| 0 <= i < (a + m).len() && 0 <= j < b.len() implies key_lt(
            (a + m)[i],
            b[j],
        ) by {
            assert(key_lt(k, b[j]));
            if i < a.len() {
                assert((a + m)[i] == a[i]);
                assert(key_lt(a[i], k));
                lemma_key_lt_trans(a[i], k, b[j]);
            } else {
                assert((a + m)[i] == k);
            }
        }
    }
    lemma_sorted_concat(a + m, b);
}

/// Where sorted `s` is cut into `sl` (keys at most `key`) and `sr` (keys
/// above `key`), both parts are sorted and are the keys at most and above
/// `key`.
pub proof fn lemma_split_view<T: Ord>(s: Seq<T>, sl: Seq<T>, sr: Seq<T>, key: T)
    requires
        lawful_order::<T>(),
        sorted(s),
        sl + sr == s,
        all_at_most(sl, key),
        all_above(sr, key),
    ensures
        sorted(sl),
        sorted(sr),
        at_most(s, key) == sl,
        above(s, key) == sr,
{
    lemma_sorted_concat(sl, sr);
    lemma_filters_cut(sl, sr, key);
}

/// Taking the middle key out of a sorted sequence leaves it sorted.
pub proof fn lemma_sorted_drop_mid<T: Ord>(l: Seq<T>, k: T, r: Seq<T>)
    requires
        sorted(l + seq![k] + r),
    ensures
        sorted(l + r),
{
    reveal(sorted);
    let s = l + seq![k] + r;
    let t = l + r;
    assert forall|i: int, j: int| 0 <= i < j < t.len() implies key_lt(t[i], t[j]) by {
        let i2 = if i < l.len() { i } else { i + 1 };
        let j2 = if j < l.len() { j } else { j + 1 };
        assert(t[i] == s[i2]);
        assert(t[j] == s[j2]);
    }
}

/// `s` holds a key that compares equal to `k`.
pub open spec fn has_key<T: Ord>(s: Seq<T>, k: T) -> bool {
    exists|i: int| 0 <= i < s.len() && key_equiv(#[trigger] s[i], k)
}

/// How `below` grows when a key is pushed.
pub proof fn lemma_below_push<T: Ord>(s: Seq<T>, x: T, k: T)
    ensures
        below(s.push(x), k) === (if key_lt(x, k) {
            below(s, k).push(x)
        } else {
            below(s, k)
        }),
{
    reveal(below);
    s.lemma_filter_push(x, lt_pred(k));
}

/// How `above` grows when a key is pushed.
pub proof fn lemma_above_push<T: Ord>(s: Seq<T>, x: T, k: T)
    ensures
        above(s.push(x), k) === (if key_lt(k, x) {
            above(s, k).push(x)
        } else {
            above(s, k)
        }),
{
    reveal(above);
    s.lemma_filter_push(x, gt_pred(k));
}

/// How `at_most` grows when a key is pushed.
pub proof fn lemma_at_most_push<T: Ord>(s: Seq<T>, x: T, k: T)
    ensures
        at_most(s.push(x), k) === (if !key_lt(k, x) {
            at_most(s, k).push(x)
        } else {
            at_most(s, k)
        }),
{
    reveal(at_most);
    s.lemma_filter_push(x, le_pred(k));
}

/// A sorted sequence is its keys at most `k` followed by its keys above
/// `k`; the keys at most `k` are the keys below `k`, followed by the key
/// that compares equal to `k` where there is one.
pub proof fn lemma_partition<T: Ord>(s: Seq<T>, k: T)
    requires
        lawful_order::<T>(),
        sorted(s),
    ensures
        at_most(s, k) + above(s, k) == s,
        all_below(below(s, k), k),
        all_above(above(s, k), k),
        !has_key(s, k) ==> at_most(s, k) == below(s, k),
        has_key(s, k) ==> at_most(s, k) == below(s, k).push(at_most(s, k).last())
            && key_equiv(at_most(s, k).last(), k),
    decreases s.len(),
{
    lemma_key_order::<T>();
    if s.len() == 0 {
        assert(all_below(s, k) && all_above(s, k));
        lemma_filters_gap(s, s, k);
        assert(s + s =~= s);
    } else {
        let init = s.drop_last();
        let x = s.last();
        assert(init.push(x) =~= s);
        assert(init + seq![x] =~= s);
        assert(sorted(init) && all_before(init, seq![x])) by {
            lemma_sorted_concat(init, seq![x]);
        }
        assert(all_below(init, x)) by {
            assert forall|i: int| 0 <= i < init.len() implies key_lt(#[trigger] init[i], x) by {
                assert(seq![x][0] == x);
            }
        }
        lemma_below_push(init, x, k);
        lemma_above_push(init, x, k);
        lemma_at_most_push(init, x, k);
        if key_lt(k, x) {
            lemma_partition(init, k);
            assert(has_key(s, k) == has_key(init, k)) by {
                if has_key(s, k) {
                    let i = choose|i: int| 0 <= i < s.len() && key_equiv(#[trigger] s[i], k);
                    assert(i < init.len());
                    assert(init[i] == s[i]);
                }
                if has_key(init, k) {
                    let i = choose|i: int| 0 <= i < init.len() && key_equiv(#[trigger] init[i], k);
                    assert(s[i] == init[i]);
                }
            }
            assert(at_most(s, k) + above(s, k) =~= (at_most(init, k) + above(init, k)).push(x));
            assert forall|i: int| 0 <= i < above(s, k).len() implies key_lt(
                k,
                #[trigger] above(s, k)[i],
            ) by {
                if i < above(init, k).len() {
                    assert(above(s, k)[i] == above(init, k)[i]);
                }
            }
        } else {
            // Every key of `init` lies below `x`, which is at most `k`: all of
            // `init` lies below `k`.
            assert(all_below(init, k)) by {
                assert forall|i: int| 0 <= i < init.len() implies key_lt(#[trigger] init[i], k) by {
                    if key_lt(x, k) {
                        lemma_key_lt_trans(init[i], x, k);
                    } else {
                        lemma_key_equiv_subst(x, k, init[i]);
                    }
                }
            }
            lemma_filters_gap(init, Seq::<T>::empty(), k);
            assert(init + Seq::<T>::empty() =~= init);
            assert(!has_key(init, k)) by {
                if has_key(init, k) {
                    let i = choose|i: int| 0 <= i < init.len() && key_equiv(#[trigger] init[i], k);
                    assert(key_lt(init[i], k));
                }
            }
            if key_lt(x, k) {
                assert(!has_key(s, k)) by {
                    if has_key(s, k) {
                        let i = choose|i: int| 0 <= i < s.len() && key_equiv(#[trigger] s[i], k);
                        if i < init.len() {
                            assert(init[i] == s[i]);
                        }
                    }
                }
                assert(at_most(s, k) + above(s, k) =~= s);
            } else {
                assert(has_key(s, k)) by {
                    assert(s[s.len() - 1] == x);
                }
                assert(at_most(s, k) + above(s, k) =~= s);
                assert(at_most(s, k).last() == x);
            }
            assert forall|i: int| 0 <= i < below(s, k).len() implies key_lt(
                #[trigger] below(s, k)[i],
                k,
            ) by {
                assert(below(s, k)[i] == s[i]);
            }
        }
    }
}

} // verus!
