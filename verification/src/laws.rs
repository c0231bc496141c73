//! What holds of the tree's operations taken together, stated over the
//! sequences of keys that their contracts speak of: `insert(k)` turns the
//! keys `s` into `inserted(s, k)` (`below(s, k) + [k] + above(s, k)` where
//! no key equal to `k` is there), `delete(k)` turns them
//! into `below(s, k) + above(s, k)`, `split(k)` parts them into
//! `at_most(s, k)` and `above(s, k)`, and `merge` concatenates.
use vstd::prelude::*;
use crate::order::{key_lt, key_equiv, lawful_order, lemma_key_order, lemma_key_equiv_subst};
use crate::seqs::{
    sorted, below, above, at_most, has_key, inserted, lt_pred, gt_pred, all_before, all_above, all_at_most,
    lemma_partition, lemma_filters_gap, lemma_filters_hit, lemma_filters_cut,
    lemma_sorted_concat, lemma_sorted_join,
};

verus! {

/// A key lies in `a + b` exactly when it lies in `a` or in `b`.
proof fn lemma_contains_concat<T>(a: Seq<T>, b: Seq<T>, x: T)
    ensures
        (a + b).contains(x) <==> (a.contains(x) || b.contains(x)),
{
    if (a + b).contains(x) {
        let i = choose|i: int| 0 <= i < (a + b).len() && (a + b)[i] == x;
        if i < a.len() {
            assert(a[i] == x);
        } else {
            assert(b[i - a.len()] == x);
        }
    }
    if a.contains(x) {
        let i = choose|i: int| 0 <= i < a.len() && a[i] == x;
        assert((a + b)[i] == x);
    }
    if b.contains(x) {
        let i = choose|i: int| 0 <= i < b.len() && b[i] == x;
        assert((a + b)[a.len() + i] == x);
    }
}

/// Deleting a key that is absent leaves the keys unchanged.
pub proof fn law_delete_absent<T: Ord>(s: Seq<T>, k: T)
    requires
        lawful_order::<T>(),
        sorted(s),
        !has_key(s, k),
    ensures
        below(s, k) + above(s, k) == s,
{
    lemma_partition(s, k);
}

/// After an insert of an absent `k` the keys are those from before and `k`,
/// one more than before.
pub proof fn law_insert_contents<T: Ord>(s: Seq<T>, k: T)
    requires
        lawful_order::<T>(),
        sorted(s),
        !has_key(s, k),
    ensures
        forall|j: T|
            #![trigger (below(s, k) + seq![k] + above(s, k)).contains(j)]
            (below(s, k) + seq![k] + above(s, k)).contains(j) <==> (j == k || s.contains(j)),
        (below(s, k) + seq![k] + above(s, k)).len() == s.len() + 1,
{
    lemma_partition(s, k);
    let b = below(s, k);
    let a = above(s, k);
    assert(s == b + a);
    assert forall|j: T|
        #![trigger (b + seq![k] + a).contains(j)]
        (b + seq![k] + a).contains(j) <==> (j == k || s.contains(j)) by {
        lemma_contains_concat(b + seq![k], a, j);
        lemma_contains_concat(b, seq![k], j);
        lemma_contains_concat(b, a, j);
        if seq![k].contains(j) {
            let i = choose|i: int| 0 <= i < 1 && seq![k][i] == j;
        }
        assert(seq![k][0] == k);
    }
}

/// After a delete of `k` the keys are those from before that do not compare
/// equal to `k`, one fewer than before exactly when one did.
pub proof fn law_delete_contents<T: Ord>(s: Seq<T>, k: T)
    requires
        lawful_order::<T>(),
        sorted(s),
    ensures
        forall|j: T|
            #![trigger (below(s, k) + above(s, k)).contains(j)]
            (below(s, k) + above(s, k)).contains(j) <==> (s.contains(j) && !key_equiv(j, k)),
        (below(s, k) + above(s, k)).len() == if has_key(s, k) {
            s.len() - 1
        } else {
            s.len() as int
        },
{
    lemma_partition(s, k);
    lemma_key_order::<T>();
    let b = below(s, k);
    let a = above(s, k);
    let m = at_most(s, k);
    assert(s == m + a);
    assert forall|j: T|
        #![trigger (b + a).contains(j)]
        (b + a).contains(j) <==> (s.contains(j) && !key_equiv(j, k)) by {
        lemma_contains_concat(b, a, j);
        lemma_contains_concat(m, a, j);
        if has_key(s, k) {
            lemma_contains_concat(b, seq![m.last()], j);
            assert(m == b + seq![m.last()]);
            if seq![m.last()].contains(j) {
                let i = choose|i: int| 0 <= i < 1 && seq![m.last()][i] == j;
            }
        }
        if b.contains(j) {
            let i = choose|i: int| 0 <= i < b.len() && b[i] == j;
            assert(key_lt(b[i], k));
        }
        if a.contains(j) {
            let i = choose|i: int| 0 <= i < a.len() && a[i] == j;
            assert(key_lt(k, a[i]));
        }
    }
}

/// Inserting an absent key and then deleting it gives back the keys from
/// before.
pub proof fn law_insert_then_delete<T: Ord>(s: Seq<T>, k: T)
    requires
        lawful_order::<T>(),
        sorted(s),
        !has_key(s, k),
    ensures
        ({
            let t = below(s, k) + seq![k] + above(s, k);
            below(t, k) + above(t, k) == s
        }),
{
    lemma_partition(s, k);
    assert(key_equiv(k, k)) by {
        lemma_key_order::<T>();
    }
    lemma_filters_hit(below(s, k), k, above(s, k), k);
}

/// Deleting a key that is present and then inserting it again gives back
/// the keys from before.
pub proof fn law_delete_then_insert<T: Ord>(s: Seq<T>, k: T)
    requires
        lawful_order::<T>(),
        sorted(s),
        s.contains(k),
    ensures
        ({
            let t = below(s, k) + above(s, k);
            below(t, k) + seq![k] + above(t, k) == s
        }),
{
    lemma_partition(s, k);
    lemma_key_order::<T>();
    let i = choose|i: int| 0 <= i < s.len() && s[i] == k;
    assert(key_equiv(s[i], k));
    assert(has_key(s, k));
    let m = at_most(s, k);
    // The key equal to `k` in `s` is `k` itself: `k` lies in `s`, and not
    // below or above `k`.
    assert(m.last() == k) by {
        lemma_contains_concat(m, above(s, k), k);
        lemma_contains_concat(below(s, k), seq![m.last()], k);
        assert(m == below(s, k) + seq![m.last()]);
        if below(s, k).contains(k) {
            let j = choose|j: int| 0 <= j < below(s, k).len() && below(s, k)[j] == k;
            assert(key_lt(below(s, k)[j], k));
        }
        if above(s, k).contains(k) {
            let j = choose|j: int| 0 <= j < above(s, k).len() && above(s, k)[j] == k;
            assert(key_lt(k, above(s, k)[j]));
        }
        if seq![m.last()].contains(k) {
            let j = choose|j: int| 0 <= j < 1 && seq![m.last()][j] == k;
        }
    }
    lemma_filters_gap(below(s, k), above(s, k), k);
    assert(below(s, k) + seq![k] + above(s, k) == s);
}

/// Splitting at any key and merging the two parts gives back the keys, and
/// the parts meet what merging asks of them.
pub proof fn law_split_then_merge<T: Ord>(s: Seq<T>, k: T)
    requires
        lawful_order::<T>(),
        sorted(s),
    ensures
        all_before(at_most(s, k), above(s, k)),
        at_most(s, k) + above(s, k) == s,
{
    lemma_partition(s, k);
    lemma_sorted_concat(at_most(s, k), above(s, k));
}

/// Merging two parts and splitting at the greatest key of the first gives
/// back the two parts.
pub proof fn law_merge_then_split<T: Ord>(a: Seq<T>, b: Seq<T>)
    requires
        lawful_order::<T>(),
        sorted(a),
        sorted(b),
        all_before(a, b),
        a.len() > 0,
    ensures
        at_most(a + b, a.last()) == a,
        above(a + b, a.last()) == b,
{
    reveal(sorted);
    lemma_key_order::<T>();
    let k = a.last();
    assert(all_at_most(a, k)) by {
        assert forall|i: int| 0 <= i < a.len() implies !key_lt(k, #[trigger] a[i]) by {
            if i < a.len() - 1 {
                assert(key_lt(a[i], a[a.len() - 1]));
            }
        }
    }
    assert(all_above(b, k)) by {
        assert forall|j: int| 0 <= j < b.len() implies key_lt(k, #[trigger] b[j]) by {
            assert(key_lt(a[a.len() - 1], b[j]));
        }
    }
    lemma_filters_cut(a, b, k);
}

/// What `min` returns lies below every other key, and what `max` returns
/// above every other key.
pub proof fn law_min_least_max_greatest<T: Ord>(s: Seq<T>)
    requires
        sorted(s),
        s.len() > 0,
    ensures
        forall|i: int| 0 < i < s.len() ==> key_lt(s[0], #[trigger] s[i]),
        forall|i: int| 0 <= i < s.len() - 1 ==> key_lt(#[trigger] s[i], s.last()),
{
    reveal(sorted);
}

/// Two sorted sequences that hold the same keys are the same sequence.
pub proof fn law_sorted_unique<T: Ord>(s1: Seq<T>, s2: Seq<T>)
    requires
        lawful_order::<T>(),
        sorted(s1),
        sorted(s2),
        forall|x: T| s1.contains(x) <==> s2.contains(x),
    ensures
        s1 == s2,
    decreases s1.len(),
{
    lemma_key_order::<T>();
    reveal(sorted);
    if s1.len() == 0 {
        if s2.len() > 0 {
            assert(s2.contains(s2[0]));
        }
        assert(s1 =~= s2);
    } else {
        assert(s1.contains(s1[s1.len() - 1]));
        assert(s2.len() > 0);
        assert(s2.contains(s2[s2.len() - 1]));
        let x = s1.last();
        let y = s2.last();
        let j = choose|j: int| 0 <= j < s2.len() && s2[j] == x;
        let i = choose|i: int| 0 <= i < s1.len() && s1[i] == y;
        if x != y {
            assert(j < s2.len() - 1);
            assert(i < s1.len() - 1);
            assert(key_lt(x, y));
            assert(key_lt(y, x));
        }
        let t1 = s1.drop_last();
        let t2 = s2.drop_last();
        assert(sorted(t1));
        assert(sorted(t2));
        assert forall|z: T| t1.contains(z) <==> t2.contains(z) by {
            if t1.contains(z) {
                let a = choose|a: int| 0 <= a < t1.len() && t1[a] == z;
                assert(s1[a] == z);
                assert(key_lt(z, x));
                assert(s1.contains(z));
                assert(s2.contains(z));
                let b = choose|b: int| 0 <= b < s2.len() && s2[b] == z;
                if b == s2.len() - 1 {
                    assert(z == x);
                }
                assert(t2[b] == z);
            }
            if t2.contains(z) {
                let a = choose|a: int| 0 <= a < t2.len() && t2[a] == z;
                assert(s2[a] == z);
                assert(key_lt(z, y));
                assert(s2.contains(z));
                assert(s1.contains(z));
                let b = choose|b: int| 0 <= b < s1.len() && s1[b] == z;
                if b == s1.len() - 1 {
                    assert(z == y);
                }
                assert(t1[b] == z);
            }
        }
        law_sorted_unique(t1, t2);
        assert(s1 =~= t1.push(x));
        assert(s2 =~= t2.push(y));
    }
}

/// Inserting keeps the keys sorted.
pub proof fn law_inserted_sorted<T: Ord>(s: Seq<T>, k: T)
    requires
        lawful_order::<T>(),
        sorted(s),
    ensures
        sorted(inserted(s, k)),
{
    if !has_key(s, k) {
        lemma_partition(s, k);
        lemma_sorted_concat(at_most(s, k), above(s, k));
        lemma_sorted_join(below(s, k), k, above(s, k));
    }
}

/// A key equal to `j` is in `inserted(s, k)` exactly when one is in `s` or
/// `k` is equal to `j`.
proof fn lemma_inserted_has_key<T: Ord>(s: Seq<T>, k: T, j: T)
    requires
        lawful_order::<T>(),
        sorted(s),
    ensures
        has_key(inserted(s, k), j) <==> (has_key(s, j) || (!has_key(s, k) && key_equiv(k, j))),
{
    if !has_key(s, k) {
        law_insert_contents(s, k);
        let t = inserted(s, k);
        if has_key(t, j) {
            let i = choose|i: int| 0 <= i < t.len() && key_equiv(#[trigger] t[i], j);
            assert(t.contains(t[i]));
            if t[i] != k {
                assert(s.contains(t[i]));
                let m = choose|m: int| 0 <= m < s.len() && s[m] == t[i];
                assert(key_equiv(s[m], j));
            }
        }
        if has_key(s, j) {
            let i = choose|i: int| 0 <= i < s.len() && key_equiv(#[trigger] s[i], j);
            assert(s.contains(s[i]));
            assert(t.contains(s[i]));
            let m = choose|m: int| 0 <= m < t.len() && t[m] == s[i];
            assert(key_equiv(t[m], j));
        }
        if key_equiv(k, j) {
            assert(t.contains(k));
            let m = choose|m: int| 0 <= m < t.len() && t[m] == k;
            assert(key_equiv(t[m], j));
        }
    }
}

/// The keys of `inserted(s, k)`: those of `s`, and `k` where no key equal to
/// it was there.
proof fn lemma_inserted_contains<T: Ord>(s: Seq<T>, k: T, z: T)
    requires
        lawful_order::<T>(),
        sorted(s),
    ensures
        inserted(s, k).contains(z) <==> (s.contains(z) || (!has_key(s, k) && z == k)),
{
    if !has_key(s, k) {
        law_insert_contents(s, k);
        assert(inserted(s, k).contains(z) <==> (z == k || s.contains(z)));
    }
}

/// Inserting two keys that are the same or do not compare equal gives the
/// same keys in either order.
pub proof fn law_insert_commutes<T: Ord>(s: Seq<T>, a: T, b: T)
    requires
        lawful_order::<T>(),
        sorted(s),
        a == b || !key_equiv(a, b),
    ensures
        inserted(inserted(s, a), b) == inserted(inserted(s, b), a),
{
    if a != b {
        let sa = inserted(s, a);
        let sb = inserted(s, b);
        law_inserted_sorted(s, a);
        law_inserted_sorted(s, b);
        law_inserted_sorted(sa, b);
        law_inserted_sorted(sb, a);
        lemma_key_order::<T>();
        lemma_inserted_has_key(s, a, b);
        lemma_inserted_has_key(s, b, a);
        assert(!key_equiv(b, a));
        assert forall|z: T| inserted(sa, b).contains(z) <==> inserted(sb, a).contains(z) by {
            lemma_inserted_contains(s, a, z);
            lemma_inserted_contains(s, b, z);
            lemma_inserted_contains(sa, b, z);
            lemma_inserted_contains(sb, a, z);
        }
        law_sorted_unique(inserted(sa, b), inserted(sb, a));
    }
}

/// Keys that compare equal cut a sequence at the same place.
proof fn lemma_equiv_filters<T: Ord>(s: Seq<T>, a: T, b: T)
    requires
        lawful_order::<T>(),
        key_equiv(a, b),
    ensures
        below(s, a) == below(s, b),
        above(s, a) == above(s, b),
{
    reveal(below);
    reveal(above);
    assert forall|x: T| #[trigger] lt_pred(a)(x) == lt_pred(b)(x) by {
        lemma_key_equiv_subst(a, b, x);
        lemma_key_equiv_subst(b, a, x);
    }
    assert forall|x: T| #[trigger] gt_pred(a)(x) == gt_pred(b)(x) by {
        lemma_key_equiv_subst(a, b, x);
        lemma_key_equiv_subst(b, a, x);
    }
    assert(lt_pred(a) =~= lt_pred(b));
    assert(gt_pred(a) =~= gt_pred(b));
}

/// Inserting two keys in either order gives the same number of keys, and
/// at each place keys that compare equal; the very same keys where the two
/// are the same or do not compare equal. (Where they differ but compare
/// equal, the one inserted first stays.)
pub proof fn law_insert_order<T: Ord>(s: Seq<T>, a: T, b: T)
    requires
        lawful_order::<T>(),
        sorted(s),
    ensures
        inserted(inserted(s, a), b).len() == inserted(inserted(s, b), a).len(),
        forall|i: int|
            0 <= i < inserted(inserted(s, a), b).len() ==> key_equiv(
                #[trigger] inserted(inserted(s, a), b)[i],
                inserted(inserted(s, b), a)[i],
            ),
        a == b || !key_equiv(a, b) ==> inserted(inserted(s, a), b) == inserted(inserted(s, b), a),
{
    lemma_key_order::<T>();
    if a == b || !key_equiv(a, b) {
        law_insert_commutes(s, a, b);
    } else {
        lemma_key_equiv_subst(a, b, a);
        lemma_inserted_has_key(s, a, b);
        lemma_inserted_has_key(s, b, a);
        if has_key(s, a) {
            let i = choose|i: int| 0 <= i < s.len() && key_equiv(#[trigger] s[i], a);
            lemma_key_equiv_subst(s[i], a, b);
            lemma_key_equiv_subst(a, b, s[i]);
            assert(key_equiv(s[i], b));
            assert(has_key(s, b));
        } else {
            if has_key(s, b) {
                let i = choose|i: int| 0 <= i < s.len() && key_equiv(#[trigger] s[i], b);
                lemma_key_equiv_subst(s[i], b, a);
                lemma_key_equiv_subst(b, a, s[i]);
                assert(key_equiv(s[i], a));
            }
            lemma_equiv_filters(s, a, b);
            let x = inserted(inserted(s, a), b);
            let y = inserted(inserted(s, b), a);
            assert(x == below(s, a) + seq![a] + above(s, a));
            assert(y == below(s, a) + seq![b] + above(s, a));
            assert forall|i: int| 0 <= i < x.len() implies key_equiv(#[trigger] x[i], y[i]) by {
                if i != below(s, a).len() {
                    assert(x[i] == y[i]);
                }
            }
        }
    }
}

} // verus!
