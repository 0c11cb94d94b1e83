use persistent_heaps::order::{at_most, duplicate, less};

#[test]
fn less_is_strict() {
    assert!(less(&1, &2));
    assert!(!less(&2, &2));
    assert!(!less(&3, &2));
}

#[test]
fn at_most_admits_equals() {
    assert!(at_most(&1, &2));
    assert!(at_most(&2, &2));
    assert!(!at_most(&3, &2));
}

#[test]
fn duplicate_gives_the_same() {
    assert_eq!(duplicate(&17), 17);
    assert_eq!(duplicate(&String::from("heap")), String::from("heap"));
}
