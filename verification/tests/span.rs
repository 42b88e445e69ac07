use karst::span::Span;

#[test]
fn span_merge_union() {
    let a = Span::new(0, 5, 10);
    let b = Span::new(0, 8, 20);
    assert_eq!(a.merge(b), Span::new(0, 5, 20));
    assert_eq!(b.merge(a), Span::new(0, 5, 20));
}

#[test]
fn span_merge_different_files_falls_back() {
    let a = Span::new(0, 5, 10);
    let b = Span::new(1, 0, 3);
    assert_eq!(a.merge(b), a);
}

#[test]
fn span_expansion_bump() {
    let a = Span::new(0, 1, 2);
    assert_eq!(a.bumped_expansion().expansion_id, 1);
    assert_eq!(a.bumped_expansion().bumped_expansion().expansion_id, 2);
}

#[test]
fn span_contains_and_len() {
    let a = Span::new(0, 10, 20);
    assert!(a.contains(10) && a.contains(19));
    assert!(!a.contains(20) && !a.contains(9));
    assert_eq!(a.len(), 10);
    assert!(!a.is_empty());
    assert!(Span::dummy().is_empty());
}

#[test]
fn span_merge_different_expansion_falls_back() {
    let a = Span::new(0, 5, 10);
    let b = Span::new(0, 0, 30).bumped_expansion();
    assert_eq!(a.merge(b), a);
    assert_eq!(b.merge(a), b);
}

#[test]
fn span_merge_is_idempotent_and_covers_both() {
    let a = Span::new(2, 3, 7);
    assert_eq!(a.merge(a), a);
    let b = Span::new(2, 12, 15);
    let m = a.merge(b);
    assert_eq!(m, Span::new(2, 3, 15));
    assert!(m.contains(3) && m.contains(10) && m.contains(14));
}

#[test]
fn span_expansion_saturates() {
    let mut a = Span::new(0, 1, 2);
    a.expansion_id = u32::MAX;
    assert_eq!(a.bumped_expansion().expansion_id, u32::MAX);
}

#[test]
fn span_reversed_is_empty_with_zero_len() {
    let a = Span::new(0, 9, 4);
    assert!(a.is_empty());
    assert_eq!(a.len(), 0);
    assert!(!a.contains(5));
}

#[test]
fn span_to_string_forms() {
    assert_eq!(Span::new(0, 5, 10).to_string(), "Span(file 0, 5..10)");
    assert_eq!(
        Span::new(3, 1, 2).bumped_expansion().bumped_expansion().to_string(),
        "Span(file 3, 1..2, exp 2)"
    );
}
