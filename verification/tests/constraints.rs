use hyperiso::Constraint;

#[test]
fn test_single_constraint() {
    let c = Constraint::single(3);
    assert!(!c.is_empty());
}

#[test]
fn test_intersection_narrows() {
    let mut c = Constraint::Any;
    c.intersection(vec![1, 2, 3]);
    assert!(!c.is_empty());
    c.intersection(vec![2, 3, 4]);
    assert!(!c.is_empty());
    c.intersection(vec![5]);
    assert!(c.is_empty());
}

#[test]
fn test_intersect_one() {
    let mut c = Constraint::Any;
    c.intersect_one(7);
    assert!(!c.is_empty());
    c.intersect_one(7);
    assert!(!c.is_empty());
    c.intersect_one(8);
    assert!(c.is_empty());
}

#[test]
fn test_any_is_not_empty() {
    let c = Constraint::Any;
    assert!(!c.is_empty());
}

#[test]
fn test_empty_candidates() {
    let c = Constraint::Among(Vec::new());
    assert!(c.is_empty());
}
