use freecell_solver::fingerprint::{lex_less_eq, Key64, KEY_SIZE};
use std::collections::HashMap;

#[test]
fn invariant_basics() {
    assert_eq!(64, std::mem::size_of::<Key64>());
    let mut a = Key64::new();
    let mut b = Key64::new();
    let mut key_map = HashMap::new();

    assert!(a == b);
    key_map.insert(a, "a");
    key_map.insert(b, "b");
    assert_eq!(1, key_map.len());
    assert_eq!(Some(&"b"), key_map.get(&a));

    for i in 0..KEY_SIZE {
        a.put(i, (i + 1) as u8);
        assert!(a != b);

        b.put(i, (i + 1) as u8);
        assert!(a == b);

        key_map.insert(a, "a");
        key_map.insert(b, "b");
    }
    assert_eq!(KEY_SIZE + 1, key_map.len());
}

#[test]
fn lexicographic_order() {
    assert!(lex_less_eq(&vec![], &vec![]));
    assert!(lex_less_eq(&vec![], &vec![0]));
    assert!(!lex_less_eq(&vec![0], &vec![]));
    assert!(lex_less_eq(&vec![1, 2], &vec![1, 2, 0]));
    assert!(lex_less_eq(&vec![1, 2, 9], &vec![1, 3]));
    assert!(!lex_less_eq(&vec![1, 3], &vec![1, 2, 9]));
    assert!(lex_less_eq(&vec![5, 5], &vec![5, 5]));
}

#[test]
fn packed_keys() {
    let mut key = Key64::new();
    assert_eq!((0, 0, 0, 0), key.packed());
    key.put(15, 1);
    key.put(16, 2);
    key.put(63, 255);
    assert_eq!((1, 2u128 << 120, 0, 255), key.packed());
    key.put(0, 1);
    assert_eq!((1 + (1u128 << 120), 2u128 << 120, 0, 255), key.packed());
}
