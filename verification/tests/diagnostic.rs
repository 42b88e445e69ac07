use karst::diagnostic::{render_diagnostic, Diagnostic, DiagnosticCode, Severity};
use karst::source_table::SourceTable;
use karst::span::Span;

#[test]
fn diagnostic_render_full_shape() {
    let mut sm = SourceTable::new();
    let id = sm.add_file("t.krt", "(+ # 1)");
    let diag = Diagnostic::error(
        Some(DiagnosticCode(1)),
        "invaild char '#'",
        Span::new(id, 3, 4),
    )
    .with_child(Severity::Note, "this need oprand", Span::new(id, 0, 7))
    .with_suggestion("do you need entry 1", Span::new(id, 3, 4), "1");
    let text = render_diagnostic(&diag, &sm);
    assert!(text.contains("error[E0001]: invaild char '#'"));
    assert!(text.contains("--> t.krt:1:4"));
    assert!(text.contains("note: this need oprand"));
    assert!(text.contains("help: do you need entry 1"));
}

#[test]
fn code_render() {
    assert_eq!(DiagnosticCode(1).render(), "E0001");
    assert_eq!(DiagnosticCode(331).render(), "E0331");
}

#[test]
fn code_render_wide_numbers() {
    assert_eq!(DiagnosticCode(0).render(), "E0000");
    assert_eq!(DiagnosticCode(12345).render(), "E12345");
}

#[test]
fn diagnostic_render_exact_text() {
    let mut sm = SourceTable::new();
    let id = sm.add_file("main.krt", "(+ # 1)");
    let diag = Diagnostic::error(
        Some(DiagnosticCode(1)),
        "invalid character '#'",
        Span::new(id, 3, 4),
    )
    .with_child(Severity::Note, "expected an operand here", Span::new(id, 0, 7))
    .with_suggestion("did you mean to enter `1`?", Span::new(id, 3, 4), "1");
    let text = render_diagnostic(&diag, &sm);
    assert_eq!(
        text,
        "error[E0001]: invalid character '#'\n  --> main.krt:1:4\n     |\n   1 | (+ # 1)\n     |    ^\n  note: expected an operand here (main.krt:1:1)\n  help: did you mean to enter `1`? -> 「1 」\n"
    );
}

#[test]
fn diagnostic_unknown_file_has_no_excerpt() {
    let sm = SourceTable::new();
    let diag = Diagnostic::warning(None, "odd", Span::new(4, 1, 2));
    let text = render_diagnostic(&diag, &sm);
    assert_eq!(text, "warning: odd\n  --> <unknown file 4>\n");
    assert!(!diag.is_error());
}

#[test]
fn diagnostic_builders() {
    let d = Diagnostic::new(Severity::Help, None, "m", Span::dummy());
    assert!(!d.is_error());
    assert!(d.children.is_empty() && d.suggestion.is_empty());
    let d = d
        .with_child(Severity::Note, "a", Span::new(0, 1, 2))
        .with_child(Severity::Warning, "b", Span::new(0, 2, 3));
    assert_eq!(d.children.len(), 2);
    assert_eq!(d.children[0].message, "a");
    assert_eq!(d.children[1].severity, Severity::Warning);
    assert!(Diagnostic::error(None, "x", Span::dummy()).is_error());
}

#[test]
fn severity_labels() {
    assert_eq!(Severity::Error.to_string(), "error");
    assert_eq!(Severity::Warning.label(), "warning");
    assert_eq!(Severity::Note.label(), "note");
    assert_eq!(Severity::Help.label(), "help");
}

#[test]
fn diagnostic_children_with_expansion() {
    let mut sm = SourceTable::new();
    let id = sm.add_file("a.krt", "x\ny");
    let diag = Diagnostic::new(Severity::Note, Some(DiagnosticCode(42)), "n", Span::new(id, 2, 3))
        .with_child(Severity::Help, "h", Span::new(id, 0, 1).bumped_expansion());
    let text = render_diagnostic(&diag, &sm);
    assert_eq!(
        text,
        "note[E0042]: n\n  --> a.krt:2:1\n     |\n   2 | y\n     | ^\n  help: h (a.krt:1:1 (expansion 1))\n"
    );
}

#[test]
fn renderable_checks_every_location() {
    let mut sm = SourceTable::new();
    let id = sm.add_file("u.krt", "é");
    let ok = Diagnostic::error(None, "m", Span::new(id, 0, 2));
    assert!(karst::diagnostic::is_renderable(&ok, &sm));
    let bad = ok.clone().with_child(Severity::Note, "n", Span::new(id, 1, 2));
    assert!(!karst::diagnostic::is_renderable(&bad, &sm));
}
