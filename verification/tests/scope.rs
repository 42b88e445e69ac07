use karst::scope::ScopeSet;

#[test]
fn add_keeps_sorted_dedup() {
    let mut s = ScopeSet::new();
    s.add(3);
    s.add(1);
    s.add(3);
    s.add(2);
    assert_eq!(s.iter().collect::<Vec<_>>(), vec![1, 2, 3]);
    assert_eq!(s.len(), 3);
}

#[test]
fn union_and_subset() {
    let a = ScopeSet::from_iter_scopes(&[1, 2]);
    let b = ScopeSet::from_iter_scopes(&[2, 3]);
    let u = a.union(&b);
    assert_eq!(u.iter().collect::<Vec<_>>(), vec![1, 2, 3]);
    assert!(a.is_subset_of(&u));
    assert!(!u.is_subset_of(&a));
}

#[test]
fn hygiene_invariant_two_scope_sets_never_merge_to_single() {
    let macro_scopes = ScopeSet::from_iter_scopes(&[10]);
    let user_scopes = ScopeSet::from_iter_scopes(&[1, 2]);
    let expanded = macro_scopes.union(&user_scopes);
    assert_eq!(expanded.len(), 3);
    assert!(expanded.contains(10) && expanded.contains(1) && expanded.contains(2));
}

#[test]
fn remove_and_contains() {
    let mut s = ScopeSet::from_iter_scopes(&[5, 1, 9, 1]);
    assert_eq!(s.iter().collect::<Vec<_>>(), vec![1, 5, 9]);
    s.remove(5);
    s.remove(7);
    assert!(!s.contains(5));
    assert!(s.contains(1) && s.contains(9));
    assert_eq!(s.len(), 2);
    s.remove(1);
    s.remove(9);
    assert!(s.is_empty());
}

#[test]
fn union_is_commutative_and_idempotent() {
    let a = ScopeSet::from_iter_scopes(&[4, 8, 15]);
    let b = ScopeSet::from_iter_scopes(&[16, 4, 23]);
    assert_eq!(a.union(&b), b.union(&a));
    assert_eq!(a.union(&a), a);
    assert_eq!(a.union(&ScopeSet::new()), a);
}

#[test]
fn subset_edge_cases() {
    let empty = ScopeSet::default();
    let a = ScopeSet::from_iter_scopes(&[0, u32::MAX]);
    assert!(empty.is_subset_of(&a));
    assert!(a.is_subset_of(&a));
    assert!(!a.is_subset_of(&empty));
    assert_eq!(a.iter().collect::<Vec<_>>(), vec![0, u32::MAX]);
}

#[test]
fn order_of_input_does_not_matter() {
    let a = ScopeSet::from_iter_scopes(&[3, 2, 1, 2, 3]);
    let b = ScopeSet::from_iter_scopes(&[1, 2, 3]);
    assert_eq!(a, b);
}
