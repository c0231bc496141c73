use lib::SplayTree;

// Empty tree
#[test]
fn test_new_empty() {
    let t: SplayTree<i32> = SplayTree::new();
    assert!(t.is_empty());
    assert_eq!(t.len(), 0);
}

// Insert then contains
#[test]
fn test_insert_contains() {
    let mut t = SplayTree::new();
    t.insert(5);
    assert!(t.contains(&5));
}

// Insert returns true for new key
#[test]
fn test_insert_new_true() {
    let mut t = SplayTree::new();
    assert!(t.insert(42));
}

// Insert returns false for duplicate
#[test]
fn test_insert_dup_false() {
    let mut t = SplayTree::new();
    t.insert(7);
    assert!(!t.insert(7));
}

// contains on empty tree
#[test]
fn test_contains_miss_empty() {
    let mut t: SplayTree<i32> = SplayTree::new();
    assert!(!t.contains(&1));
}

// contains misses after inserts of other values
#[test]
fn test_contains_miss_after_inserts() {
    let mut t = SplayTree::new();
    t.insert(1);
    t.insert(2);
    t.insert(3);
    assert!(!t.contains(&99));
}

// inorder of empty tree
#[test]
fn test_inorder_empty() {
    let t: SplayTree<i32> = SplayTree::new();
    assert_eq!(t.inorder(), Vec::<&i32>::new());
}

// inorder single element
#[test]
fn test_inorder_single() {
    let mut t = SplayTree::new();
    t.insert(10);
    assert_eq!(t.inorder(), vec![&10]);
}

// inorder multiple elements
#[test]
fn test_inorder_sorted() {
    let mut t = SplayTree::new();
    for &v in &[5, 3, 7, 1, 4, 6, 8] {
        t.insert(v);
    }
    assert_eq!(t.inorder(), vec![&1, &3, &4, &5, &6, &7, &8]);
}

// len increments on distinct inserts
#[test]
fn test_len_increments() {
    let mut t = SplayTree::new();
    for i in 0..5 {
        t.insert(i);
    }
    assert_eq!(t.len(), 5);
}

// len does not increment on duplicate
#[test]
fn test_len_no_dup() {
    let mut t = SplayTree::new();
    t.insert(1);
    t.insert(1);
    assert_eq!(t.len(), 1);
}

// delete on empty returns false
#[test]
fn test_delete_empty_false() {
    let mut t: SplayTree<i32> = SplayTree::new();
    assert!(!t.delete(&5));
}

// delete a leaf
#[test]
fn test_delete_leaf() {
    let mut t = SplayTree::new();
    t.insert(5);
    t.insert(3);
    assert!(t.delete(&3));
    assert!(!t.contains(&3));
    assert_eq!(t.len(), 1);
}

// delete the root
#[test]
fn test_delete_root() {
    let mut t = SplayTree::new();
    t.insert(5);
    assert!(t.delete(&5));
    assert!(t.is_empty());
}

// delete nonexistent returns false
#[test]
fn test_delete_nonexistent_false() {
    let mut t = SplayTree::new();
    t.insert(1);
    t.insert(2);
    assert!(!t.delete(&99));
    assert_eq!(t.len(), 2);
}

// inorder after deletes
#[test]
fn test_delete_inorder_sorted() {
    let mut t = SplayTree::new();
    for &v in &[5, 3, 7, 1, 4, 6, 8] {
        t.insert(v);
    }
    t.delete(&3);
    t.delete(&7);
    assert_eq!(t.inorder(), vec![&1, &4, &5, &6, &8]);
}

// min of empty
#[test]
fn test_min_empty() {
    let mut t: SplayTree<i32> = SplayTree::new();
    assert_eq!(t.min(), None);
}

// min basic
#[test]
fn test_min_basic() {
    let mut t = SplayTree::new();
    for &v in &[3, 1, 4, 5] {
        t.insert(v);
    }
    assert_eq!(t.min(), Some(&1));
}

// max basic
#[test]
fn test_max_basic() {
    let mut t = SplayTree::new();
    for &v in &[3, 1, 4, 5] {
        t.insert(v);
    }
    assert_eq!(t.max(), Some(&5));
}

// splay moves accessed element to root (verified via duplicate detection)
#[test]
fn test_splay_moves_to_root() {
    let mut t = SplayTree::new();
    t.insert(10);
    t.insert(5);
    t.insert(15);
    // After contains(10), 10 should be at root — re-inserting 10 is a dup
    assert!(t.contains(&10));
    assert!(!t.insert(10)); // duplicate → splay worked
}

// split basic
#[test]
fn test_split_basic() {
    let mut t = SplayTree::new();
    for v in 1..=5 {
        t.insert(v);
    }
    let (left, right) = t.split(&3);
    assert_eq!(left.inorder(), vec![&1, &2, &3]);
    assert_eq!(right.inorder(), vec![&4, &5]);
    assert_eq!(left.len(), 3);
    assert_eq!(right.len(), 2);
}

// split empty
#[test]
fn test_split_empty() {
    let t: SplayTree<i32> = SplayTree::new();
    let (left, right) = t.split(&5);
    assert!(left.is_empty());
    assert!(right.is_empty());
}

// merge basic
#[test]
fn test_merge_basic() {
    let mut a = SplayTree::new();
    a.insert(1);
    a.insert(3);
    let mut b = SplayTree::new();
    b.insert(5);
    b.insert(7);
    let merged = SplayTree::merge(a, b);
    assert_eq!(merged.inorder(), vec![&1, &3, &5, &7]);
    assert_eq!(merged.len(), 4);
}

// merge empty left
#[test]
fn test_merge_empty_left() {
    let empty: SplayTree<i32> = SplayTree::new();
    let mut right = SplayTree::new();
    right.insert(1);
    right.insert(2);
    let merged = SplayTree::merge(empty, right);
    assert_eq!(merged.inorder(), vec![&1, &2]);
    assert_eq!(merged.len(), 2);
}

// merge empty right
#[test]
fn test_merge_empty_right() {
    let mut left = SplayTree::new();
    left.insert(1);
    left.insert(2);
    let empty: SplayTree<i32> = SplayTree::new();
    let merged = SplayTree::merge(left, empty);
    assert_eq!(merged.inorder(), vec![&1, &2]);
    assert_eq!(merged.len(), 2);
}

// sequential access - tests amortized O(n) behavior
#[test]
fn test_sequential_access() {
    let mut t = SplayTree::new();
    for i in 1..=100 {
        t.insert(i);
    }
    for i in 1..=100 {
        assert!(t.contains(&i));
    }
}

// mass insert in reverse, inorder is sorted
#[test]
fn test_mass_insert_inorder() {
    let mut t = SplayTree::new();
    for i in (1..=100).rev() {
        t.insert(i);
    }
    let keys: Vec<i32> = t.inorder().into_iter().copied().collect();
    let expected: Vec<i32> = (1..=100).collect();
    assert_eq!(keys, expected);
}

// mass delete: delete all odds, only evens remain
#[test]
fn test_mass_delete() {
    let mut t = SplayTree::new();
    for i in 1..=50 {
        t.insert(i);
    }
    for i in (1..=50).step_by(2) {
        assert!(t.delete(&i));
    }
    assert_eq!(t.len(), 25);
    let keys: Vec<i32> = t.inorder().into_iter().copied().collect();
    let expected: Vec<i32> = (2..=50).step_by(2).collect();
    assert_eq!(keys, expected);
}

// Inserting a key that is absent and then deleting it leaves the keys as
// they were.
#[test]
fn test_insert_then_delete_restores() {
    let mut t = SplayTree::new();
    for &v in &[10, 2, 8, 4] {
        t.insert(v);
    }
    assert!(t.insert(5));
    assert!(t.delete(&5));
    assert_eq!(t.inorder(), vec![&2, &4, &8, &10]);
    assert_eq!(t.len(), 4);
}

// Deleting a present key and inserting it again leaves the keys as they
// were.
#[test]
fn test_delete_then_insert_restores() {
    let mut t = SplayTree::new();
    for &v in &[10, 2, 8, 4] {
        t.insert(v);
    }
    assert!(t.delete(&8));
    assert!(!t.contains(&8));
    assert!(t.insert(8));
    assert_eq!(t.inorder(), vec![&2, &4, &8, &10]);
}

// Splitting and merging the parts gives back the same keys.
#[test]
fn test_split_then_merge_restores() {
    let mut t = SplayTree::new();
    for &v in &[7, 3, 9, 1, 5] {
        t.insert(v);
    }
    let (left, right) = t.split(&4);
    assert_eq!(left.inorder(), vec![&1, &3]);
    assert_eq!(right.inorder(), vec![&5, &7, &9]);
    let merged = SplayTree::merge(left, right);
    assert_eq!(merged.inorder(), vec![&1, &3, &5, &7, &9]);
    assert_eq!(merged.len(), 5);
}

// A split key below every key leaves the left part empty; one above every
// key leaves the right part empty.
#[test]
fn test_split_at_ends() {
    let mut t = SplayTree::new();
    for v in 1..=4 {
        t.insert(v);
    }
    let (left, right) = t.split(&0);
    assert!(left.is_empty());
    assert_eq!(right.len(), 4);
    let (left, right) = right.split(&10);
    assert_eq!(left.inorder(), vec![&1, &2, &3, &4]);
    assert!(right.is_empty());
}

// A split key that is present goes to the left part.
#[test]
fn test_split_key_goes_left() {
    let mut t = SplayTree::new();
    for v in [2, 4, 6] {
        t.insert(v);
    }
    let (left, right) = t.split(&4);
    assert_eq!(left.inorder(), vec![&2, &4]);
    assert_eq!(right.inorder(), vec![&6]);
}

// min and max leave the keys unchanged.
#[test]
fn test_min_max_keep_keys() {
    let mut t = SplayTree::new();
    for &v in &[6, 2, 9, 4] {
        t.insert(v);
    }
    assert_eq!(t.max(), Some(&9));
    assert_eq!(t.min(), Some(&2));
    assert_eq!(t.inorder(), vec![&2, &4, &6, &9]);
    assert_eq!(t.len(), 4);
}

// max of an empty tree is None.
#[test]
fn test_max_empty() {
    let mut t: SplayTree<i32> = SplayTree::new();
    assert_eq!(t.max(), None);
}

// contains leaves the keys and the count unchanged, hit or miss.
#[test]
fn test_contains_keeps_keys() {
    let mut t = SplayTree::new();
    for &v in &[3, 1, 2] {
        t.insert(v);
    }
    assert!(t.contains(&2));
    assert!(!t.contains(&7));
    assert_eq!(t.inorder(), vec![&1, &2, &3]);
    assert_eq!(t.len(), 3);
}

// Deleting every key leaves an empty tree, which takes new keys again.
#[test]
fn test_delete_all_then_reuse() {
    let mut t = SplayTree::new();
    for v in 1..=10 {
        t.insert(v);
    }
    for v in (1..=10).rev() {
        assert!(t.delete(&v));
    }
    assert!(t.is_empty());
    assert_eq!(t.min(), None);
    assert!(t.insert(3));
    assert_eq!(t.inorder(), vec![&3]);
}

// Keys of a non-integer type are kept in their own order.
#[test]
fn test_string_keys() {
    let mut t = SplayTree::new();
    for w in ["pear", "apple", "fig", "apple"] {
        t.insert(w.to_string());
    }
    assert_eq!(t.len(), 3);
    let keys: Vec<&str> = t.inorder().into_iter().map(|s| s.as_str()).collect();
    assert_eq!(keys, vec!["apple", "fig", "pear"]);
    assert!(t.contains(&"fig".to_string()));
    assert!(t.delete(&"apple".to_string()));
    assert_eq!(t.min().map(|s| s.as_str()), Some("fig"));
}

// A default tree is empty.
#[test]
fn test_default_empty() {
    let t: SplayTree<u64> = SplayTree::default();
    assert!(t.is_empty());
    assert_eq!(t.inorder(), Vec::<&u64>::new());
}

// Inserting a key splays it to the root: inserting it again is a duplicate,
// even after other accesses moved other keys up.
#[test]
fn test_insert_duplicate_after_other_accesses() {
    let mut t = SplayTree::new();
    for &v in &[50, 20, 80, 10, 30] {
        t.insert(v);
    }
    assert_eq!(t.min(), Some(&10));
    assert_eq!(t.max(), Some(&80));
    assert!(!t.insert(30));
    assert!(!t.insert(10));
    assert_eq!(t.len(), 5);
}

// A key type whose order ignores letter case: keys that compare equal count
// as the same key, and the tree keeps the one it already holds.
#[derive(Debug, Clone)]
struct Caseless(String);

impl PartialEq for Caseless {
    fn eq(&self, other: &Self) -> bool {
        self.0.to_lowercase() == other.0.to_lowercase()
    }
}

impl Eq for Caseless {}

impl PartialOrd for Caseless {
    fn partial_cmp(&self, other: &Self) -> Option<std::cmp::Ordering> {
        Some(self.cmp(other))
    }
}

impl Ord for Caseless {
    fn cmp(&self, other: &Self) -> std::cmp::Ordering {
        self.0.to_lowercase().cmp(&other.0.to_lowercase())
    }
}

#[test]
fn test_equal_keys_are_one_key() {
    let mut t = SplayTree::new();
    assert!(t.insert(Caseless("apple".to_string())));
    assert!(!t.insert(Caseless("APPLE".to_string())));
    assert_eq!(t.len(), 1);
    assert_eq!(t.inorder()[0].0, "apple");
    assert!(t.contains(&Caseless("Apple".to_string())));
    assert!(t.delete(&Caseless("aPPLE".to_string())));
    assert!(t.is_empty());
}

// Inserting the same keys in different orders gives the same keys.
#[test]
fn test_insert_order_does_not_matter() {
    let mut a = SplayTree::new();
    let mut b = SplayTree::new();
    for v in [4, 9, 1, 7, 3] {
        a.insert(v);
    }
    for v in [7, 3, 9, 4, 1, 9] {
        b.insert(v);
    }
    assert_eq!(a.inorder(), b.inorder());
    assert_eq!(a.len(), b.len());
}

// Accessing a missing key changes neither the keys nor what a later insert
// of a present key reports.
#[test]
fn test_miss_splays_neighbour() {
    let mut t = SplayTree::new();
    for v in [10, 5, 15] {
        t.insert(v);
    }
    assert!(!t.contains(&12));
    assert!(!t.insert(15));
    assert_eq!(t.inorder(), vec![&5, &10, &15]);
}

// Keys that compare equal but differ: either order gives the same number of
// keys, equal place by place, and the one inserted first stays.
#[test]
fn test_insert_order_with_equal_keys() {
    let mut a = SplayTree::new();
    let mut b = SplayTree::new();
    for w in ["pear", "fig"] {
        a.insert(Caseless(w.to_string()));
        b.insert(Caseless(w.to_string()));
    }
    a.insert(Caseless("kiwi".to_string()));
    a.insert(Caseless("KIWI".to_string()));
    b.insert(Caseless("KIWI".to_string()));
    b.insert(Caseless("kiwi".to_string()));
    assert_eq!(a.len(), b.len());
    assert_eq!(a.inorder(), b.inorder());
    let first: Vec<&str> = a.inorder().iter().map(|k| k.0.as_str()).collect();
    let second: Vec<&str> = b.inorder().iter().map(|k| k.0.as_str()).collect();
    assert_eq!(first, vec!["fig", "kiwi", "pear"]);
    assert_eq!(second, vec!["fig", "KIWI", "pear"]);
}
