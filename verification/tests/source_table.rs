use karst::source_table::SourceTable;

#[test]
fn line_col_basic() {
    let mut sm = SourceTable::new();
    let id = sm.add_file("t.krt", "(define x 1)\n(print x)\n");
    let f = sm.file(id).unwrap();
    assert_eq!(f.line_col(0), (1, 1));
    assert_eq!(f.line_col(1), (1, 2));

    // the second line starts at byte 13 ("(define x 1)\n" is 13 bytes)
    assert_eq!(f.line_col(12), (1, 13));
    assert_eq!(f.line_col(13), (2, 1));
    assert_eq!(f.line_col(14), (2, 2));
}

#[test]
fn line_col_utf8() {
    let mut sm = SourceTable::new();
    let id = sm.add_file("t.krt", "(+ \"你好\" 1)");
    let f = sm.file(id).unwrap();

    // byte 4 is the first byte of the first CJK character: 4 characters precede it
    assert_eq!(f.line_col(4), (1, 5));
    // byte 7 is the first byte of the second CJK character: 5 characters precede it
    assert_eq!(f.line_col(7), (1, 6));
}

#[test]
fn render_location_and_excerpt() {
    let mut sm = SourceTable::new();
    let id = sm.add_file("t.krf", "(define x 1)\n");
    let loc = sm.render_location(id, 9, 0);
    assert_eq!(loc, "t.krf:1:10");
    let exp = sm.excerpt(id, 9);
    assert!(exp.contains("(define x 1)"));
    assert!(exp.contains('^'));
}

#[test]
fn unknown_file_is_explicit() {
    let sm = SourceTable::new();
    assert_eq!(sm.render_location(7, 0, 0), "<unknown file 7>");
}

#[test]
fn ids_are_assigned_in_order() {
    let mut sm = SourceTable::new();
    assert!(sm.is_empty());
    assert_eq!(sm.add_file("a.krt", "a"), 0);
    assert_eq!(sm.add_file("b.krt", "b"), 1);
    assert_eq!(sm.len(), 2);
    let f = sm.file(1).unwrap();
    assert_eq!(f.name, "b.krt");
    assert_eq!(&*f.src, "b");
    assert!(sm.file(2).is_none());
}

#[test]
fn offsets_past_the_end_are_clamped() {
    let mut sm = SourceTable::new();
    let id = sm.add_file("t.krt", "ab\ncd");
    let f = sm.file(id).unwrap();
    assert_eq!(f.line_col(5), (2, 3));
    assert_eq!(f.line_col(500), (2, 3));
}

#[test]
fn location_with_expansion() {
    let mut sm = SourceTable::new();
    let id = sm.add_file("m.krt", "x\ny");
    assert_eq!(sm.render_location(id, 2, 3), "m.krt:2:1 (expansion 3)");
}

#[test]
fn excerpt_exact_shape() {
    let mut sm = SourceTable::new();
    let id = sm.add_file("t.krt", "(+ # 1)\r\nnext");
    assert_eq!(sm.excerpt(id, 3), "   1 | (+ # 1)\n     |    ^");
    assert_eq!(sm.excerpt(id, 11), "   2 | next\n     |   ^");
    assert_eq!(sm.excerpt(5, 0), "");
}

#[test]
fn line_text_strips_terminators() {
    let mut sm = SourceTable::new();
    let id = sm.add_file("t.krt", "one\r\ntwo\n\nthree");
    let f = sm.file(id).unwrap();
    assert_eq!(f.line_text(0), "one");
    assert_eq!(f.line_text(1), "one");
    assert_eq!(f.line_text(2), "two");
    assert_eq!(f.line_text(3), "");
    assert_eq!(f.line_text(4), "three");
    assert_eq!(f.line_text(5), "");
}

#[test]
fn wide_line_numbers_are_not_truncated() {
    let mut text = String::new();
    for _ in 0..12345 {
        text.push('\n');
    }
    text.push_str("end");
    let mut sm = SourceTable::new();
    let id = sm.add_file("big.krt", &text);
    let offset = text.len() as u32 - 1;
    assert_eq!(sm.excerpt(id, offset), "12346 | end\n     |   ^");
}

#[test]
fn caret_column_counts_characters() {
    let mut sm = SourceTable::new();
    let id = sm.add_file("u.krt", "(é # 1)");
    // 'é' takes two bytes, so '#' is at byte 4 but in column 4
    assert_eq!(sm.render_location(id, 4, 0), "u.krt:1:4");
    assert_eq!(sm.excerpt(id, 4), "   1 | (é # 1)\n     |    ^");
}

#[test]
fn locatable_offsets() {
    let mut sm = SourceTable::new();
    let id = sm.add_file("u.krt", "aé");
    assert!(sm.is_locatable(id, 0));
    assert!(sm.is_locatable(id, 1));
    assert!(!sm.is_locatable(id, 2));
    assert!(sm.is_locatable(id, 3));
    assert!(sm.is_locatable(id, 99));
    assert!(sm.is_locatable(id + 1, 2));
}

#[test]
fn file_accessors() {
    let mut sm = SourceTable::new();
    let id = sm.add_file("n.krt", "text\n");
    let f = sm.file(id).unwrap();
    assert_eq!(f.name(), "n.krt");
    assert_eq!(f.src(), "text\n");
}
