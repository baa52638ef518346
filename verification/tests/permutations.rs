use hyperiso::Permutation;

#[test]
fn test_valid_permutations() {
    assert!(Permutation::new([0, 1, 2].to_vec()).is_some());
    assert!(Permutation::new([2, 0, 1].to_vec()).is_some());
    assert!(Permutation::new([1, 0].to_vec()).is_some());
    assert!(Permutation::new(vec![0]).is_some());
    assert!(Permutation::new(Vec::<usize>::new()).is_some());
}

#[test]
fn test_invalid_permutations() {
    assert!(Permutation::new([0, 2].to_vec()).is_none());
    assert!(Permutation::new([0, 1, 1].to_vec()).is_none());
    assert!(Permutation::new([0, 1, 3].to_vec()).is_none());
    assert!(Permutation::new([1, 2, 3].to_vec()).is_none());
    assert!(Permutation::new([0, 0, 1].to_vec()).is_none());
}

#[test]
fn test_from_different_iterables() {
    assert!(Permutation::new(vec![0, 1, 2]).is_some());
    assert!(Permutation::new([0, 1, 2].to_vec()).is_some());
    assert!(Permutation::new((0..3).collect::<Vec<_>>()).is_some());
    assert!(Permutation::new([2, 1, 0].iter().copied().collect::<Vec<_>>()).is_some());
}

#[test]
fn test_identity_values() {
    let p = Permutation::identity(4);
    assert_eq!(p.len(), 4);
    for i in 0..4 {
        assert_eq!(p.index(i), i);
    }
    let empty = Permutation::identity(0);
    assert_eq!(empty.len(), 0);
}

#[test]
fn test_new_keeps_values() {
    let p = Permutation::new(vec![2, 0, 1]).expect("valid permutation");
    assert_eq!(p.len(), 3);
    assert_eq!(p.index(0), 2);
    assert_eq!(p.index(1), 0);
    assert_eq!(p.index(2), 1);
}

#[test]
fn test_equality_is_by_value() {
    let p = Permutation::new(vec![1, 0]).expect("valid permutation");
    let q = Permutation::new(vec![1, 0]).expect("valid permutation");
    let r = Permutation::identity(2);
    assert_eq!(p, q);
    assert_ne!(p, r);
}
