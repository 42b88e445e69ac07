//! Structured diagnostics (severity, code, message, span, notes and fix
//! suggestions) and their rustc-style text rendering.

use vstd::prelude::*;

use crate::source_table::{spec_excerpt, spec_render_location, FileView, SourceTable};
use crate::span::Span;
use crate::text::{decimal, lemma_decimal_len, pad_left, push_char, push_padded_decimal, push_str};

verus! {

/// Diagnostic level.
#[derive(Debug, Clone, Copy, PartialEq, Eq, Hash, Structural)]
pub enum Severity {
    Error,
    Warning,
    Note,
    Help,
}

impl Severity {
    /// The lower-case word that names the level in rendered text.
    pub open spec fn spec_label(self) -> Seq<char> {
        match self {
            Severity::Error => "error"@,
            Severity::Warning => "warning"@,
            Severity::Note => "note"@,
            Severity::Help => "help"@,
        }
    }

    /// The lower-case word that names the level: `error`, `warning`, `note`
    /// or `help`.
    pub fn label(self) -> (s: &'static str)
        ensures
            s@ == self.spec_label(),
    {
        match self {
            Severity::Error => "error",
            Severity::Warning => "warning",
            Severity::Note => "note",
            Severity::Help => "help",
        }
    }

    /// The level's word as an owned string.
    pub fn to_string(self) -> (s: String)
        ensures
            s@ == self.spec_label(),
    {
        self.label().to_owned()
    }
}

/// A diagnostic id, rendered as `E` followed by at least four digits.
#[derive(Debug, Clone, Copy, PartialEq, Eq, Hash, Structural)]
pub struct DiagnosticCode(pub u32);

/// `E` followed by the number, zero-padded to four digits.
pub open spec fn spec_code(n: u32) -> Seq<char> {
    seq!['E'] + pad_left(decimal(n as nat), 4, '0')
}

impl DiagnosticCode {
    /// The code as text, such as `E0001`.
    pub fn render(self) -> (s: String)
        ensures
            s@ == spec_code(self.0),
    {
        let mut out = String::new();
        push_char(&mut out, 'E');
        push_padded_decimal(&mut out, self.0, 4, '0');
        assert(out@ =~= spec_code(self.0));
        out
    }
}

/// A code below 10000 renders as `E` and exactly four digits; a larger code
/// renders in full, never truncated.
pub proof fn lemma_code_width(n: u32)
    ensures
        n < 10000 ==> spec_code(n).len() == 5,
        n >= 10000 ==> spec_code(n) == seq!['E'] + decimal(n as nat),
{
    lemma_decimal_len(n as nat);
}

/// A secondary message attached to a diagnostic.
#[derive(Debug, Clone)]
pub struct SubDiagnostic {
    /// diagnostic level
    pub severity: Severity,
    /// diagnostic message
    pub message: String,
    /// diagnostic position
    pub span: Span,
}

/// A proposed fix.
#[derive(Debug, Clone)]
pub struct Suggestion {
    /// suggestion message
    pub message: String,
    /// suggestion position
    pub span: Span,
    /// the text proposed in place of the span
    pub replacement: String,
}

/// A full diagnostic.
#[derive(Debug, Clone)]
pub struct Diagnostic {
    /// diagnostic level
    pub severity: Severity,
    /// diagnostic code
    pub code: Option<DiagnosticCode>,
    /// diagnostic message
    pub message: String,
    /// diagnostic position
    pub span: Span,
    /// attached secondary messages, in order of attachment
    pub children: Vec<SubDiagnostic>,
    /// attached fix suggestions, in order of attachment
    pub suggestion: Vec<Suggestion>,
}

impl Diagnostic {
    pub fn new(severity: Severity, code: Option<DiagnosticCode>, message: &str, span: Span) -> (d:
        Self)
        ensures
            d.severity == severity,
            d.code == code,
            d.message@ == message@,
            d.span == span,
            d.children@.len() == 0,
            d.suggestion@.len() == 0,
    {
        Diagnostic {
            severity,
            code,
            message: message.to_owned(),
            span,
            children: Vec::new(),
            suggestion: Vec::new(),
        }
    }

    /// A diagnostic of level `Error`.
    pub fn error(code: Option<DiagnosticCode>, message: &str, span: Span) -> (d: Self)
        ensures
            d.severity == Severity::Error,
            d.code == code,
            d.message@ == message@,
            d.span == span,
            d.children@.len() == 0,
            d.suggestion@.len() == 0,
    {
        Diagnostic::new(Severity::Error, code, message, span)
    }

    /// A diagnostic of level `Warning`.
    pub fn warning(code: Option<DiagnosticCode>, message: &str, span: Span) -> (d: Self)
        ensures
            d.severity == Severity::Warning,
            d.code == code,
            d.message@ == message@,
            d.span == span,
            d.children@.len() == 0,
            d.suggestion@.len() == 0,
    {
        Diagnostic::new(Severity::Warning, code, message, span)
    }

    /// The same diagnostic with one more secondary message at the end.
    pub fn with_child(self, severity: Severity, message: &str, span: Span) -> (d: Self)
        ensures
            d.severity == self.severity,
            d.code == self.code,
            d.message@ == self.message@,
            d.span == self.span,
            d.suggestion@ == self.suggestion@,
            d.children@.len() == self.children@.len() + 1,
            d.children@.drop_last() == self.children@,
            d.children@.last().severity == severity,
            d.children@.last().message@ == message@,
            d.children@.last().span == span,
    {
        let mut d = self;
        d.children.push(SubDiagnostic { severity, message: message.to_owned(), span });
        assert(d.children@.drop_last() =~= self.children@);
        d
    }

    /// The same diagnostic with one more fix suggestion at the end.
    pub fn with_suggestion(self, message: &str, span: Span, replacement: &str) -> (d: Self)
        ensures
            d.severity == self.severity,
            d.code == self.code,
            d.message@ == self.message@,
            d.span == self.span,
            d.children@ == self.children@,
            d.suggestion@.len() == self.suggestion@.len() + 1,
            d.suggestion@.drop_last() == self.suggestion@,
            d.suggestion@.last().message@ == message@,
            d.suggestion@.last().span == span,
            d.suggestion@.last().replacement@ == replacement@,
    {
        let mut d = self;
        d.suggestion.push(
            Suggestion { message: message.to_owned(), span, replacement: replacement.to_owned() },
        );
        assert(d.suggestion@.drop_last() =~= self.suggestion@);
        d
    }

    pub fn is_error(&self) -> (b: bool)
        ensures
            b == (self.severity == Severity::Error),
    {
        self.severity == Severity::Error
    }
}

/// The first line: level, bracketed code if any, and message.
pub open spec fn spec_header(d: Diagnostic) -> Seq<char> {
    let code = match d.code {
        Some(c) => seq!['['] + spec_code(c.0) + seq![']'],
        None => seq![],
    };
    d.severity.spec_label() + code + ": "@ + d.message@ + seq!['\n']
}

/// The rendered lines of the secondary messages, one per message, in order.
pub open spec fn spec_children(files: Seq<FileView>, cs: Seq<SubDiagnostic>) -> Seq<char>
    decreases cs.len(),
{
    if cs.len() == 0 {
        seq![]
    } else {
        let c = cs.last();
        spec_children(files, cs.drop_last()) + "  "@ + c.severity.spec_label() + ": "@ + c.message@
            + " ("@ + spec_render_location(
            files,
            c.span.file_id,
            c.span.start,
            c.span.expansion_id,
        ) + ")\n"@
    }
}

/// The rendered lines of the fix suggestions, one per suggestion, in order.
pub open spec fn spec_suggestions(ss: Seq<Suggestion>) -> Seq<char>
    decreases ss.len(),
{
    if ss.len() == 0 {
        seq![]
    } else {
        let s = ss.last();
        spec_suggestions(ss.drop_last()) + "  help: "@ + s.message@ + " -> 「"@ + s.replacement@
            + " 」\n"@
    }
}

/// The full rendering of a diagnostic: header, `  --> location`, the source
/// excerpt (only when the span's file is known), secondary messages, and
/// suggestions.
pub open spec fn spec_render_diagnostic(d: Diagnostic, files: Seq<FileView>) -> Seq<char> {
    let location = "  --> "@ + spec_render_location(
        files,
        d.span.file_id,
        d.span.start,
        d.span.expansion_id,
    ) + seq!['\n'];
    let excerpt = if d.span.file_id < files.len() {
        "     |\n"@ + spec_excerpt(files, d.span.file_id, d.span.start) + seq!['\n']
    } else {
        seq![]
    };
    spec_header(d) + location + excerpt + spec_children(files, d.children@) + spec_suggestions(
        d.suggestion@,
    )
}

/// Every location that rendering `d` looks up is on a character boundary.
pub open spec fn renderable(d: Diagnostic, table: SourceTable) -> bool {
    &&& table.can_locate(d.span.file_id, d.span.start)
    &&& forall|i: int|
        0 <= i < d.children@.len() ==> table.can_locate(
            #[trigger] d.children@[i].span.file_id,
            d.children@[i].span.start,
        )
}

/// Whether every location that rendering `diag` looks up can be rendered.
pub fn is_renderable(diag: &Diagnostic, source_table: &SourceTable) -> (b: bool)
    requires
        source_table.wf(),
    ensures
        b == renderable(*diag, *source_table),
{
    if !source_table.is_locatable(diag.span.file_id, diag.span.start) {
        return false;
    }
    let mut i: usize = 0;
    while i < diag.children.len()
        invariant
            source_table.wf(),
            i <= diag.children@.len(),
            forall|k: int|
                0 <= k < i ==> source_table.can_locate(
                    #[trigger] diag.children@[k].span.file_id,
                    diag.children@[k].span.start,
                ),
        decreases diag.children@.len() - i,
    {
        let child = &diag.children[i];
        if !source_table.is_locatable(child.span.file_id, child.span.start) {
            return false;
        }
        i = i + 1;
    }
    true
}

/// Renders a diagnostic as text:
///
/// ```text
/// error[E0001]: invalid char '#'
///   --> main.krt:1:4
///      |
///    1 | (+ # 1)
///      |    ^
///   note: ... (main.krt:1:1)
///   help: ... -> 「1 」
/// ```
#[verifier::rlimit(40)]
pub fn render_diagnostic(diag: &Diagnostic, source_table: &SourceTable) -> (r: String)
    requires
        source_table.wf(),
        renderable(*diag, *source_table),
    ensures
        r@ == spec_render_diagnostic(*diag, source_table@),
{
    let ghost files = source_table@;
    let mut out = String::new();

    push_str(&mut out, diag.severity.label());
    match diag.code {
        Some(c) => {
            push_char(&mut out, '[');
            let code = c.render();
            push_str(&mut out, code.as_str());
            push_char(&mut out, ']');
        },
        None => {},
    }
    push_str(&mut out, ": ");
    push_str(&mut out, diag.message.as_str());
    push_char(&mut out, '\n');
    assert(out@ =~= spec_header(*diag));
    let ghost after_header = out@;

    push_str(&mut out, "  --> ");
    let location = source_table.render_location(
        diag.span.file_id,
        diag.span.start,
        diag.span.expansion_id,
    );
    push_str(&mut out, location.as_str());
    push_char(&mut out, '\n');
    let ghost after_location = out@;

    if !diag.span.is_empty() || source_table.file(diag.span.file_id).is_some() {
        let excerpt = source_table.excerpt(diag.span.file_id, diag.span.start);
        if excerpt.as_str().unicode_len() > 0 {
            push_str(&mut out, "     |\n");
            push_str(&mut out, excerpt.as_str());
            push_char(&mut out, '\n');
        }
    }
    assert(out@ =~= spec_header(*diag) + "  --> "@ + spec_render_location(
        files,
        diag.span.file_id,
        diag.span.start,
        diag.span.expansion_id,
    ) + seq!['\n'] + (if diag.span.file_id < files.len() {
        "     |\n"@ + spec_excerpt(files, diag.span.file_id, diag.span.start) + seq!['\n']
    } else {
        seq![]
    }));
    let ghost before_children = out@;

    let n = diag.children.len();
    let mut i: usize = 0;
    assert(diag.children@.take(0) =~= Seq::<SubDiagnostic>::empty());
    while i < n
        invariant
            n == diag.children@.len(),
            i <= n,
            source_table.wf(),
            renderable(*diag, *source_table),
            files == source_table@,
            out@ == before_children + spec_children(files, diag.children@.take(i as int)),
        decreases n - i,
    {
        let child = &diag.children[i];
        assert(source_table.can_locate(
            diag.children@[i as int].span.file_id,
            diag.children@[i as int].span.start,
        ));
        push_str(&mut out, "  ");
        push_str(&mut out, child.severity.label());
        push_str(&mut out, ": ");
        push_str(&mut out, child.message.as_str());
        push_str(&mut out, " (");
        let loc = source_table.render_location(
            child.span.file_id,
            child.span.start,
            child.span.expansion_id,
        );
        push_str(&mut out, loc.as_str());
        push_str(&mut out, ")\n");
        assert(diag.children@.take(i + 1).drop_last() =~= diag.children@.take(i as int));
        i = i + 1;
        assert(out@ =~= before_children + spec_children(files, diag.children@.take(i as int)));
    }
    assert(diag.children@.take(n as int) =~= diag.children@);
    let ghost before_suggestions = out@;

    let m = diag.suggestion.len();
    let mut j: usize = 0;
    assert(diag.suggestion@.take(0) =~= Seq::<Suggestion>::empty());
    while j < m
        invariant
            m == diag.suggestion@.len(),
            j <= m,
            out@ == before_suggestions + spec_suggestions(diag.suggestion@.take(j as int)),
        decreases m - j,
    {
        let sugg = &diag.suggestion[j];
        push_str(&mut out, "  help: ");
        push_str(&mut out, sugg.message.as_str());
        push_str(&mut out, " -> 「");
        push_str(&mut out, sugg.replacement.as_str());
        push_str(&mut out, " 」\n");
        assert(diag.suggestion@.take(j + 1).drop_last() =~= diag.suggestion@.take(j as int));
        j = j + 1;
        assert(out@ =~= before_suggestions + spec_suggestions(diag.suggestion@.take(j as int)));
    }
    assert(diag.suggestion@.take(m as int) =~= diag.suggestion@);
    assert(out@ =~= spec_render_diagnostic(*diag, files));
    out
}

} // verus!

verus! {

/// The rendered line of one secondary message:
/// `  {level}: {message} ({location})` and a line feed.
pub open spec fn child_line(files: Seq<FileView>, c: SubDiagnostic) -> Seq<char> {
    "  "@ + c.severity.spec_label() + ": "@ + c.message@ + " ("@ + spec_render_location(
        files,
        c.span.file_id,
        c.span.start,
        c.span.expansion_id,
    ) + ")\n"@
}

/// Secondary messages are rendered in the order they were attached: one
/// more message appends its line after the lines of the earlier ones.
pub proof fn lemma_children_in_attachment_order(
    files: Seq<FileView>,
    cs: Seq<SubDiagnostic>,
    c: SubDiagnostic,
)
    ensures
        spec_children(files, seq![]) == Seq::<char>::empty(),
        spec_children(files, cs.push(c)) == spec_children(files, cs) + child_line(files, c),
{
    assert(cs.push(c).drop_last() =~= cs);
    assert(spec_children(files, cs.push(c)) =~= spec_children(files, cs) + child_line(files, c));
}

/// Attaching a secondary message to a diagnostic without suggestions adds
/// exactly its line at the end of the rendering; everything rendered before
/// stays as it was.
pub proof fn lemma_render_with_child_appends(
    files: Seq<FileView>,
    d: Diagnostic,
    d2: Diagnostic,
    c: SubDiagnostic,
)
    requires
        d2.severity == d.severity,
        d2.code == d.code,
        d2.message@ == d.message@,
        d2.span == d.span,
        d2.children@ == d.children@.push(c),
        d.suggestion@.len() == 0,
        d2.suggestion@.len() == 0,
    ensures
        spec_render_diagnostic(d2, files) == spec_render_diagnostic(d, files) + child_line(files, c),
{
    lemma_children_in_attachment_order(files, d.children@, c);
    assert(spec_suggestions(d.suggestion@) =~= Seq::<char>::empty());
    assert(spec_suggestions(d2.suggestion@) =~= Seq::<char>::empty());
    assert(spec_header(d2) == spec_header(d));
    assert(spec_render_diagnostic(d2, files) =~= spec_render_diagnostic(d, files) + child_line(
        files,
        c,
    ));
}

/// Attaching a suggestion adds exactly its `  help: {message} -> 「{replacement} 」`
/// line at the end of the rendering.
pub proof fn lemma_render_with_suggestion_appends(
    files: Seq<FileView>,
    d: Diagnostic,
    d2: Diagnostic,
    s: Suggestion,
)
    requires
        d2.severity == d.severity,
        d2.code == d.code,
        d2.message@ == d.message@,
        d2.span == d.span,
        d2.children@ == d.children@,
        d2.suggestion@ == d.suggestion@.push(s),
    ensures
        spec_render_diagnostic(d2, files) == spec_render_diagnostic(d, files) + "  help: "@
            + s.message@ + " -> 「"@ + s.replacement@ + " 」\n"@,
{
    assert(d2.suggestion@.drop_last() =~= d.suggestion@);
    assert(spec_header(d2) == spec_header(d));
    assert(spec_render_diagnostic(d2, files) =~= spec_render_diagnostic(d, files) + "  help: "@
        + s.message@ + " -> 「"@ + s.replacement@ + " 」\n"@);
}

/// The layout of a rendering: the header line, then `  --> location`, then —
/// whenever the span's file is known, whether the span is empty or not — a
/// gutter line and the source excerpt, then the secondary messages and the
/// suggestions. For an unknown file no excerpt is shown.
pub proof fn lemma_render_layout(files: Seq<FileView>, d: Diagnostic)
    ensures
        d.span.file_id < files.len() ==> spec_render_diagnostic(d, files) == spec_header(d)
            + "  --> "@ + spec_render_location(
            files,
            d.span.file_id,
            d.span.start,
            d.span.expansion_id,
        ) + "\n"@ + "     |\n"@ + spec_excerpt(files, d.span.file_id, d.span.start) + "\n"@
            + spec_children(files, d.children@) + spec_suggestions(d.suggestion@),
        d.span.file_id >= files.len() ==> spec_render_diagnostic(d, files) == spec_header(d)
            + "  --> "@ + spec_render_location(
            files,
            d.span.file_id,
            d.span.start,
            d.span.expansion_id,
        ) + "\n"@ + spec_children(files, d.children@) + spec_suggestions(d.suggestion@),
        spec_header(d) == d.severity.spec_label() + (match d.code {
            Some(c) => "[E"@ + pad_left(decimal(c.0 as nat), 4, '0') + "]"@,
            None => Seq::<char>::empty(),
        }) + ": "@ + d.message@ + "\n"@,
{
    reveal_strlit("\n");
    reveal_strlit("[E");
    reveal_strlit("]");
    assert(spec_render_diagnostic(d, files) =~= spec_header(d) + "  --> "@ + spec_render_location(
        files,
        d.span.file_id,
        d.span.start,
        d.span.expansion_id,
    ) + "\n"@ + (if d.span.file_id < files.len() {
        "     |\n"@ + spec_excerpt(files, d.span.file_id, d.span.start) + "\n"@
    } else {
        Seq::<char>::empty()
    }) + spec_children(files, d.children@) + spec_suggestions(d.suggestion@));
    match d.code {
        Some(c) => {
            assert(spec_header(d) =~= d.severity.spec_label() + "[E"@ + pad_left(
                decimal(c.0 as nat),
                4,
                '0',
            ) + "]"@ + ": "@ + d.message@ + "\n"@);
        },
        None => {
            assert(spec_header(d) =~= d.severity.spec_label() + ": "@ + d.message@ + "\n"@);
        },
    }
}

} // verus!
