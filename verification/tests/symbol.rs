use karst::phase::Phase;
use karst::symbol::{Keyword, SymbolTable};

#[test]
fn intern_is_idempotent() {
    let mut t = SymbolTable::new();
    let a = t.intern("fib");
    let b = t.intern("fib");
    assert_eq!(a, b);
    let c = t.intern("other");
    assert_ne!(a, c);
    assert_eq!(t.name(a), "fib");
}

#[test]
fn keywords_prefetched() {
    let mut t = SymbolTable::new();
    let sym = t.intern("lambda");
    assert_eq!(t.keyword_symbol(Keyword::Lambda), sym);
    assert!(t.is_keyword(sym, Keyword::Lambda));
    assert!(!t.is_keyword(sym, Keyword::If));
}

#[test]
fn nfc_normalization_one_time() {
    let mut t = SymbolTable::new();
    // "e" + U+0301 (combining acute) → "é"
    let a = t.intern("e\u{0301}");
    let b = t.intern("\u{00E9}");
    assert_eq!(
        a, b,
        "The combined and pre-grouped forms must be represented by the same symbol."
    );
    assert_eq!(t.name(a), "\u{00E9}");
}

#[test]
fn keyword_roundtrip() {
    for kw in [
        Keyword::Lambda,
        Keyword::SetBang,
        Keyword::DefineSyntax,
        Keyword::SyntaxRules,
    ] {
        assert_eq!(Keyword::from_name(kw.as_str()), Some(kw));
    }
    assert_eq!(Keyword::from_name("not-a-keyword"), None);
}

#[test]
fn new_table_holds_exactly_the_keywords() {
    let mut t = SymbolTable::new();
    assert_eq!(t.len(), 19);
    assert!(!t.is_empty());
    assert_eq!(t.keyword_symbol(Keyword::Lambda).0, 0);
    assert_eq!(t.keyword_symbol(Keyword::While).0, 18);
    assert_eq!(t.keyword_symbol(Keyword::LetStar).as_str(&t), "let*");
    let s = t.intern("while");
    assert_eq!(s.0, 18);
    assert_eq!(t.len(), 19);
    let n = t.intern("fresh");
    assert_eq!(n.0, 19);
    assert_eq!(t.len(), 20);
}

#[test]
fn all_keywords_roundtrip() {
    let all = [
        Keyword::Lambda,
        Keyword::If,
        Keyword::SetBang,
        Keyword::Quote,
        Keyword::DefineSyntax,
        Keyword::SyntaxRules,
        Keyword::Define,
        Keyword::Begin,
        Keyword::Module,
        Keyword::Import,
        Keyword::Export,
        Keyword::Let,
        Keyword::LetRec,
        Keyword::LetStar,
        Keyword::Cond,
        Keyword::Else,
        Keyword::And,
        Keyword::Or,
        Keyword::While,
    ];
    let t = SymbolTable::new();
    for kw in all {
        assert_eq!(Keyword::from_name(kw.as_str()), Some(kw));
        assert_eq!(t.name(t.keyword_symbol(kw)), kw.as_str());
    }
    assert_eq!(Keyword::from_name("Lambda"), None);
    assert_eq!(Keyword::from_name(""), None);
}

#[test]
fn unknown_marks_are_kept() {
    let mut t = SymbolTable::new();
    let a = t.intern("x\u{0301}");
    assert_eq!(t.name(a), "x\u{0301}");
    let b = t.intern("A\u{0300}B\u{0327}C\u{0327}");
    assert_eq!(t.name(b), "\u{00C0}B\u{0327}\u{00C7}");
    let c = t.intern("\u{0301}");
    assert_eq!(t.name(c), "\u{0301}");
}

#[test]
fn phase_numbers() {
    assert_eq!(Phase::Runtime.as_u32(), 0);
    assert_eq!(Phase::ExpandTime.as_u32(), 1);
}

#[test]
fn interning_a_stored_name_gives_its_symbol_back() {
    let mut t = SymbolTable::new();
    let a = t.intern("A\u{0300}\u{0301}x");
    let stored = t.name(a).to_string();
    assert_eq!(stored, "\u{00C0}\u{0301}x");
    let before = t.len();
    assert_eq!(t.intern(&stored), a);
    assert_eq!(t.len(), before);
    for i in 0..t.len() as u32 {
        let s = karst::symbol::Symbol(i);
        let name = t.name(s).to_string();
        assert_eq!(t.intern(&name), s);
    }
    assert_eq!(t.len(), before);
}
