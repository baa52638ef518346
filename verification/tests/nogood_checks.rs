use hyperiso::nogood::is_sorted_equal;

#[test]
fn test_is_sorted_equal_empty_vectors() {
    let x: Vec<u64> = vec![];
    let y: Vec<u64> = vec![];
    assert!(is_sorted_equal(&x, &y));
}

#[test]
fn test_is_sorted_equal_single_element() {
    let x = vec![1];
    let y = vec![1];
    assert!(is_sorted_equal(&x, &y));
}

#[test]
fn test_is_sorted_equal_different_lengths() {
    let x = vec![1, 2];
    let y = vec![1];
    assert!(!is_sorted_equal(&x, &y));
}

#[test]
fn test_is_sorted_equal_same_elements_different_order() {
    let x = vec![3, 1, 2];
    let y = vec![2, 3, 1];
    assert!(is_sorted_equal(&x, &y));
}

#[test]
fn test_is_sorted_equal_different_elements() {
    let x = vec![1, 2, 3];
    let y = vec![1, 2, 4];
    assert!(!is_sorted_equal(&x, &y));
}

#[test]
fn test_is_sorted_equal_with_duplicates() {
    let x = vec![1, 2, 2, 3];
    let y = vec![3, 2, 1, 2];
    assert!(is_sorted_equal(&x, &y));
}

#[test]
fn test_is_sorted_equal_different_duplicate_counts() {
    let x = vec![1, 2, 2];
    let y = vec![1, 1, 2];
    assert!(!is_sorted_equal(&x, &y));
}

/// Label values stand in for any alphabet; here three words are numbered
/// and compared as multisets, as the library does with every label type.
fn word_code(w: &str) -> u64 {
    match w {
        "hello" => 10,
        "world" => 11,
        "rust" => 12,
        _ => 0,
    }
}

#[test]
fn test_is_sorted_equal_strings() {
    let x: Vec<u64> = ["hello", "world", "rust"].iter().map(|w| word_code(w)).collect();
    let y: Vec<u64> = ["rust", "hello", "world"].iter().map(|w| word_code(w)).collect();
    assert!(is_sorted_equal(&x, &y));
}
