use lib::hash::ternary_hash;

#[test]
fn hash_is_deterministic() {
    let h1 = ternary_hash(b"hello");
    let h2 = ternary_hash(b"hello");
    assert_eq!(h1, h2);
}

#[test]
fn hash_differs_for_different_input() {
    let h1 = ternary_hash(b"hello");
    let h2 = ternary_hash(b"world");
    assert_ne!(h1, h2);
}

#[test]
fn hash_output_is_valid_trits() {
    let h = ternary_hash(b"ternary");
    for &t in &h {
        assert!(t == -1 || t == 0 || t == 1);
    }
}
