//! Interned symbols, the core keywords, and the canonical (composed) form
//! of identifiers.

use vstd::hash_map::StringHashMap;
use vstd::prelude::*;

use crate::text::{chars_of, str_equal, string_from_chars};

verus! {

/// An interned symbol: an index into a `SymbolTable`.
#[derive(Debug, Clone, Copy, PartialEq, Eq, PartialOrd, Ord, Hash, Structural)]
pub struct Symbol(pub u32);

/// The core keywords of the S-expression front end.
#[derive(Debug, Clone, Copy, PartialEq, Eq, Hash, Structural)]
pub enum Keyword {
    /// core
    Lambda,
    If,
    SetBang,
    Quote,
    DefineSyntax,
    SyntaxRules,
    /// Derivable
    Define,
    Begin,
    Module,
    Import,
    Export,
    Let,
    LetRec,
    LetStar,
    Cond,
    Else,
    And,
    Or,
    While,
}

/// The number of keywords.
pub const KEYWORD_COUNT: usize = 19;

/// The keyword spelled `s`, if any.
pub open spec fn keyword_named(s: Seq<char>) -> Option<Keyword> {
    if exists|k: Keyword| k.spec_name() == s {
        Some(choose|k: Keyword| k.spec_name() == s)
    } else {
        None
    }
}

impl Keyword {
    /// The keyword's spelling.
    pub open spec fn spec_name(self) -> Seq<char> {
        match self {
            Keyword::Lambda => "lambda"@,
            Keyword::If => "if"@,
            Keyword::SetBang => "set!"@,
            Keyword::Quote => "quote"@,
            Keyword::DefineSyntax => "define_syntax"@,
            Keyword::SyntaxRules => "syntax_rules"@,
            Keyword::Define => "define"@,
            Keyword::Begin => "begin"@,
            Keyword::Module => "module"@,
            Keyword::Import => "import"@,
            Keyword::Export => "export"@,
            Keyword::Let => "let"@,
            Keyword::LetRec => "letrec"@,
            Keyword::LetStar => "let*"@,
            Keyword::Cond => "cond"@,
            Keyword::Else => "else"@,
            Keyword::And => "and"@,
            Keyword::Or => "or"@,
            Keyword::While => "while"@,
        }
    }

    /// The keyword's position in declaration order.
    pub open spec fn spec_index(self) -> int {
        match self {
            Keyword::Lambda => 0,
            Keyword::If => 1,
            Keyword::SetBang => 2,
            Keyword::Quote => 3,
            Keyword::DefineSyntax => 4,
            Keyword::SyntaxRules => 5,
            Keyword::Define => 6,
            Keyword::Begin => 7,
            Keyword::Module => 8,
            Keyword::Import => 9,
            Keyword::Export => 10,
            Keyword::Let => 11,
            Keyword::LetRec => 12,
            Keyword::LetStar => 13,
            Keyword::Cond => 14,
            Keyword::Else => 15,
            Keyword::And => 16,
            Keyword::Or => 17,
            Keyword::While => 18,
        }
    }

    /// The keyword's spelling.
    pub fn as_str(self) -> (s: &'static str)
        ensures
            s@ == self.spec_name(),
    {
        match self {
            Keyword::Lambda => "lambda",
            Keyword::If => "if",
            Keyword::SetBang => "set!",
            Keyword::Quote => "quote",
            Keyword::DefineSyntax => "define_syntax",
            Keyword::SyntaxRules => "syntax_rules",
            Keyword::Define => "define",
            Keyword::Begin => "begin",
            Keyword::Module => "module",
            Keyword::Import => "import",
            Keyword::Export => "export",
            Keyword::Let => "let",
            Keyword::LetRec => "letrec",
            Keyword::LetStar => "let*",
            Keyword::Cond => "cond",
            Keyword::Else => "else",
            Keyword::And => "and",
            Keyword::Or => "or",
            Keyword::While => "while",
        }
    }

    fn index(self) -> (i: usize)
        ensures
            i == self.spec_index(),
            i < KEYWORD_COUNT,
    {
        match self {
            Keyword::Lambda => 0,
            Keyword::If => 1,
            Keyword::SetBang => 2,
            Keyword::Quote => 3,
            Keyword::DefineSyntax => 4,
            Keyword::SyntaxRules => 5,
            Keyword::Define => 6,
            Keyword::Begin => 7,
            Keyword::Module => 8,
            Keyword::Import => 9,
            Keyword::Export => 10,
            Keyword::Let => 11,
            Keyword::LetRec => 12,
            Keyword::LetStar => 13,
            Keyword::Cond => 14,
            Keyword::Else => 15,
            Keyword::And => 16,
            Keyword::Or => 17,
            Keyword::While => 18,
        }
    }

    /// All keywords, in declaration order.
    fn all() -> (v: Vec<Keyword>)
        ensures
            v@.len() == KEYWORD_COUNT,
            forall|i: int| 0 <= i < KEYWORD_COUNT ==> (#[trigger] v@[i]).spec_index() == i,
    {
        let mut v: Vec<Keyword> = Vec::new();
        v.push(Keyword::Lambda);
        v.push(Keyword::If);
        v.push(Keyword::SetBang);
        v.push(Keyword::Quote);
        v.push(Keyword::DefineSyntax);
        v.push(Keyword::SyntaxRules);
        v.push(Keyword::Define);
        v.push(Keyword::Begin);
        v.push(Keyword::Module);
        v.push(Keyword::Import);
        v.push(Keyword::Export);
        v.push(Keyword::Let);
        v.push(Keyword::LetRec);
        v.push(Keyword::LetStar);
        v.push(Keyword::Cond);
        v.push(Keyword::Else);
        v.push(Keyword::And);
        v.push(Keyword::Or);
        v.push(Keyword::While);
        v
    }

    /// The keyword spelled `name`, if any.
    pub fn from_name(name: &str) -> (r: Option<Keyword>)
        ensures
            r == keyword_named(name@),
            r matches Some(k) ==> k.spec_name() == name@,
            r is None ==> forall|k: Keyword| k.spec_name() != name@,
    {
        let all = Keyword::all();
        let mut i: usize = 0;
        while i < all.len()
            invariant
                all@.len() == KEYWORD_COUNT,
                forall|j: int| 0 <= j < KEYWORD_COUNT ==> (#[trigger] all@[j]).spec_index() == j,
                i <= KEYWORD_COUNT,
                forall|j: int| 0 <= j < i ==> (#[trigger] all@[j]).spec_name() != name@,
            decreases KEYWORD_COUNT - i,
        {
            let kw = all[i];
            if str_equal(kw.as_str(), name) {
                proof {
                    let c = choose|k: Keyword| k.spec_name() == name@;
                    lemma_keyword_names_distinct(c, kw);
                }
                return Some(kw);
            }
            i = i + 1;
        }
        assert forall|k: Keyword| k.spec_name() != name@ by {
            let j = k.spec_index();
            assert(all@[j].spec_index() == j);
            assert(all@[j] == k);
        }
        None
    }
}

/// Distinct keywords are spelled differently.
pub proof fn lemma_keyword_names_distinct(k1: Keyword, k2: Keyword)
    ensures
        k1.spec_name() == k2.spec_name() ==> k1 == k2,
{
    reveal_strlit("lambda");
    reveal_strlit("if");
    reveal_strlit("set!");
    reveal_strlit("quote");
    reveal_strlit("define_syntax");
    reveal_strlit("syntax_rules");
    reveal_strlit("define");
    reveal_strlit("begin");
    reveal_strlit("module");
    reveal_strlit("import");
    reveal_strlit("export");
    reveal_strlit("let");
    reveal_strlit("letrec");
    reveal_strlit("let*");
    reveal_strlit("cond");
    reveal_strlit("else");
    reveal_strlit("and");
    reveal_strlit("or");
    reveal_strlit("while");
    if k1.spec_name() == k2.spec_name() && k1 != k2 {
        assert(k1.spec_name().len() == k2.spec_name().len());
        assert(k1.spec_name()[0] == k2.spec_name()[0]);
        assert(k1.spec_name()[1] == k2.spec_name()[1]);
        assert(k1.spec_name()[2] == k2.spec_name()[2]);
        assert(k1.spec_name().len() > 4 ==> k1.spec_name()[4] == k2.spec_name()[4]);
    }
}

/// A combining diacritical mark (the blocks U+0300–U+036F, U+1AB0–U+1AFF and
/// U+20D0–U+20FF).
pub open spec fn spec_is_combining_mark(c: char) -> bool {
    ('\u{0300}' <= c && c <= '\u{036F}') || ('\u{1AB0}' <= c && c <= '\u{1AFF}') || (
    '\u{20D0}' <= c && c <= '\u{20FF}')
}

/// The precomposed character for a base letter followed by a combining mark,
/// for the common Latin-1 letters; `None` when there is no such character in
/// the table.
pub open spec fn spec_compose_mark(base: char, mark: char) -> Option<char> {
    match (base, mark) {
        ('A', '\u{0300}') => Some('À'),
        ('A', '\u{0301}') => Some('Á'),
        ('A', '\u{0302}') => Some('Â'),
        ('E', '\u{0301}') => Some('É'),
        ('e', '\u{0301}') => Some('é'),
        ('a', '\u{0300}') => Some('à'),
        ('a', '\u{0301}') => Some('á'),
        ('u', '\u{0308}') => Some('ü'),
        ('u', '\u{0301}') => Some('ú'),
        ('n', '\u{0303}') => Some('ñ'),
        ('N', '\u{0303}') => Some('Ñ'),
        ('c', '\u{0327}') => Some('ç'),
        ('C', '\u{0327}') => Some('Ç'),
        _ => None,
    }
}

/// One step of composition: a combining mark that composes with the last
/// character produced replaces it by the precomposed character; any other
/// character is appended.
pub open spec fn compose_step(out: Seq<char>, c: char) -> Seq<char> {
    if spec_is_combining_mark(c) && out.len() > 0 && spec_compose_mark(out.last(), c) is Some {
        out.drop_last().push(spec_compose_mark(out.last(), c)->0)
    } else {
        out.push(c)
    }
}

/// The canonical form of an identifier: its characters composed left to
/// right by `compose_step`.
pub open spec fn nfc_normalized(cs: Seq<char>) -> Seq<char>
    decreases cs.len(),
{
    if cs.len() == 0 {
        seq![]
    } else {
        compose_step(nfc_normalized(cs.drop_last()), cs.last())
    }
}

/// A text without combining marks is its own canonical form.
pub proof fn lemma_nfc_normalized_without_marks(cs: Seq<char>)
    requires
        forall|i: int| 0 <= i < cs.len() ==> !spec_is_combining_mark(#[trigger] cs[i]),
    ensures
        nfc_normalized(cs) == cs,
    decreases cs.len(),
{
    if cs.len() > 0 {
        lemma_nfc_normalized_without_marks(cs.drop_last());
        assert(cs.drop_last().push(cs.last()) =~= cs);
    }
}

/// No combining mark of the text composes with the character before it:
/// composition has nothing left to do.
pub open spec fn nfc_stable(t: Seq<char>) -> bool {
    forall|i: int|
        0 < i < t.len() && spec_is_combining_mark(#[trigger] t[i]) ==> spec_compose_mark(
            t[i - 1],
            t[i],
        ) is None
}

/// A precomposed character is never itself a combining mark.
proof fn lemma_composed_is_not_mark(base: char, mark: char)
    ensures
        spec_compose_mark(base, mark) is Some ==> !spec_is_combining_mark(
            spec_compose_mark(base, mark)->0,
        ),
{
}

/// Normalization leaves nothing to compose and never lengthens a text.
proof fn lemma_nfc_normalized_stable(cs: Seq<char>)
    ensures
        nfc_stable(nfc_normalized(cs)),
        nfc_normalized(cs).len() <= cs.len(),
    decreases cs.len(),
{
    if cs.len() > 0 {
        let prev = nfc_normalized(cs.drop_last());
        lemma_nfc_normalized_stable(cs.drop_last());
        let c = cs.last();
        let t = nfc_normalized(cs);
        if spec_is_combining_mark(c) && prev.len() > 0 && spec_compose_mark(prev.last(), c) is Some {
            lemma_composed_is_not_mark(prev.last(), c);
            assert forall|i: int|
                0 < i < t.len() && spec_is_combining_mark(#[trigger] t[i]) implies spec_compose_mark(
                t[i - 1],
                t[i],
            ) is None by {
                assert(t[i] == prev[i]);
                assert(t[i - 1] == prev[i - 1]);
            }
        } else {
            assert forall|i: int|
                0 < i < t.len() && spec_is_combining_mark(#[trigger] t[i]) implies spec_compose_mark(
                t[i - 1],
                t[i],
            ) is None by {
                if i < t.len() - 1 {
                    assert(t[i] == prev[i]);
                    assert(t[i - 1] == prev[i - 1]);
                } else {
                    assert(t[i - 1] == prev.last());
                }
            }
        }
    }
}

/// A text with nothing left to compose is its own normalized form.
proof fn lemma_nfc_stable_is_fixed(t: Seq<char>)
    requires
        nfc_stable(t),
    ensures
        nfc_normalized(t) == t,
    decreases t.len(),
{
    if t.len() > 0 {
        let p = t.drop_last();
        assert(nfc_stable(p)) by {
            assert forall|i: int|
                0 < i < p.len() && spec_is_combining_mark(#[trigger] p[i]) implies spec_compose_mark(
                p[i - 1],
                p[i],
            ) is None by {
                assert(p[i] == t[i] && p[i - 1] == t[i - 1]);
            }
        }
        lemma_nfc_stable_is_fixed(p);
        if t.len() > 1 && spec_is_combining_mark(t.last()) {
            assert(t[t.len() - 1] == t.last());
            assert(spec_compose_mark(t[t.len() - 2], t[t.len() - 1]) is None);
            assert(p.last() == t[t.len() - 2]);
        }
        assert(p.push(t.last()) =~= t);
    }
}

/// Normalization is idempotent and never lengthens a text.
pub proof fn lemma_nfc_normalized_idempotent(cs: Seq<char>)
    ensures
        nfc_normalized(nfc_normalized(cs)) == nfc_normalized(cs),
        nfc_normalized(cs).len() <= cs.len(),
{
    lemma_nfc_normalized_stable(cs);
    lemma_nfc_stable_is_fixed(nfc_normalized(cs));
}

fn is_combining_mark(c: char) -> (b: bool)
    ensures
        b == spec_is_combining_mark(c),
{
    ('\u{0300}' <= c && c <= '\u{036F}') || ('\u{1AB0}' <= c && c <= '\u{1AFF}') || (
    '\u{20D0}' <= c && c <= '\u{20FF}')
}

fn compose_mark(base: char, mark: char) -> (r: Option<char>)
    ensures
        r == spec_compose_mark(base, mark),
{
    match (base, mark) {
        ('A', '\u{0300}') => Some('À'),
        ('A', '\u{0301}') => Some('Á'),
        ('A', '\u{0302}') => Some('Â'),
        ('E', '\u{0301}') => Some('É'),
        ('e', '\u{0301}') => Some('é'),
        ('a', '\u{0300}') => Some('à'),
        ('a', '\u{0301}') => Some('á'),
        ('u', '\u{0308}') => Some('ü'),
        ('u', '\u{0301}') => Some('ú'),
        ('n', '\u{0303}') => Some('ñ'),
        ('N', '\u{0303}') => Some('Ñ'),
        ('c', '\u{0327}') => Some('ç'),
        ('C', '\u{0327}') => Some('Ç'),
        _ => None,
    }
}

/// Whether the text holds no combining mark (and so is already canonical).
fn is_nfc(s: &str) -> (b: bool)
    ensures
        b == (forall|i: int| 0 <= i < s@.len() ==> !spec_is_combining_mark(#[trigger] s@[i])),
{
    let cs = chars_of(s);
    let mut i: usize = 0;
    while i < cs.len()
        invariant
            cs@ == s@,
            i <= cs@.len(),
            forall|k: int| 0 <= k < i ==> !spec_is_combining_mark(#[trigger] cs@[k]),
        decreases cs@.len() - i,
    {
        if is_combining_mark(cs[i]) {
            return false;
        }
        i = i + 1;
    }
    true
}

/// The canonical form of a text.
fn normalized_nfc(s: &str) -> (r: String)
    ensures
        r@ == nfc_normalized(s@),
{
    let cs = chars_of(s);
    let mut out: Vec<char> = Vec::new();
    let mut i: usize = 0;
    while i < cs.len()
        invariant
            cs@ == s@,
            i <= cs@.len(),
            out@ == nfc_normalized(cs@.take(i as int)),
        decreases cs@.len() - i,
    {
        let c = cs[i];
        let ghost prev = out@;
        let mut composed = false;
        if is_combining_mark(c) && out.len() > 0 {
            let base = out[out.len() - 1];
            match compose_mark(base, c) {
                Some(pre) => {
                    out.pop();
                    out.push(pre);
                    composed = true;
                },
                None => {},
            }
        }
        if !composed {
            out.push(c);
        }
        assert(cs@.take(i + 1).drop_last() =~= cs@.take(i as int));
        assert(out@ =~= compose_step(prev, c));
        i = i + 1;
    }
    assert(cs@.take(cs@.len() as int) =~= cs@);
    string_from_chars(&out)
}

/// The canonical decomposition, as given by the Unicode character database,
/// of each precomposed Latin letter that composition produces: the base
/// letter and the combining mark, by code point.
pub open spec fn canonical_decomposition(p: char) -> Option<(char, char)> {
    match p {
        '\u{00C0}' => Some(('\u{0041}', '\u{0300}')),
        '\u{00C1}' => Some(('\u{0041}', '\u{0301}')),
        '\u{00C2}' => Some(('\u{0041}', '\u{0302}')),
        '\u{00C9}' => Some(('\u{0045}', '\u{0301}')),
        '\u{00E9}' => Some(('\u{0065}', '\u{0301}')),
        '\u{00E0}' => Some(('\u{0061}', '\u{0300}')),
        '\u{00E1}' => Some(('\u{0061}', '\u{0301}')),
        '\u{00FC}' => Some(('\u{0075}', '\u{0308}')),
        '\u{00FA}' => Some(('\u{0075}', '\u{0301}')),
        '\u{00F1}' => Some(('\u{006E}', '\u{0303}')),
        '\u{00D1}' => Some(('\u{004E}', '\u{0303}')),
        '\u{00E7}' => Some(('\u{0063}', '\u{0327}')),
        '\u{00C7}' => Some(('\u{0043}', '\u{0327}')),
        _ => None,
    }
}

/// Composition gives exactly the Unicode canonical composite: a base letter
/// and a mark compose to `p` precisely when `p` canonically decomposes into
/// that letter and mark.
pub proof fn lemma_compose_is_canonical(base: char, mark: char, p: char)
    ensures
        spec_compose_mark(base, mark) == Some(p) <==> canonical_decomposition(p) == Some((base, mark)),
{
}

/// A decomposed spelling (base letter, then combining mark) is the same
/// identifier as its precomposed letter, whatever precedes it.
pub proof fn lemma_decomposed_same_as_precomposed(prefix: Seq<char>, p: char)
    requires
        canonical_decomposition(p) is Some,
    ensures
        nfc_normalized(
            prefix.push((canonical_decomposition(p)->0).0).push((canonical_decomposition(p)->0).1),
        ) == nfc_normalized(prefix.push(p)),
{
    let (base, mark) = canonical_decomposition(p)->0;
    lemma_compose_is_canonical(base, mark, p);
    lemma_composed_equals_precomposed(prefix, base, mark);
}

/// Keyword spellings are already in normalized form: every character of a
/// spelling is ASCII, below the combining marks.
pub proof fn lemma_keyword_name_normalized(k: Keyword)
    ensures
        nfc_normalized(k.spec_name()) == k.spec_name(),
{
    reveal_strlit("lambda");
    reveal_strlit("if");
    reveal_strlit("set!");
    reveal_strlit("quote");
    reveal_strlit("define_syntax");
    reveal_strlit("syntax_rules");
    reveal_strlit("define");
    reveal_strlit("begin");
    reveal_strlit("module");
    reveal_strlit("import");
    reveal_strlit("export");
    reveal_strlit("let");
    reveal_strlit("letrec");
    reveal_strlit("let*");
    reveal_strlit("cond");
    reveal_strlit("else");
    reveal_strlit("and");
    reveal_strlit("or");
    reveal_strlit("while");
    assert forall|i: int| 0 <= i < k.spec_name().len() implies (#[trigger] k.spec_name()[i])
        < '\u{80}' by {}
    lemma_nfc_normalized_without_marks(k.spec_name());
}

/// Interning `key` into the name list `names`: the names and the position
/// of `key`, which keeps the position it already has or is appended.
pub open spec fn interned(names: Seq<Seq<char>>, key: Seq<char>) -> (Seq<Seq<char>>, int) {
    if names.contains(key) {
        (names, names.index_of(key))
    } else {
        (names.push(key), names.len() as int)
    }
}

/// The symbol table: every distinct normalized name is stored once, and a
/// symbol is the position of its name. The keywords are interned first.
pub struct SymbolTable {
    /// stored names, by symbol
    names: Vec<String>,
    /// name to symbol
    map: StringHashMap<Symbol>,
    /// the symbol of each keyword, by keyword position
    keywords: Vec<Symbol>,
}

impl View for SymbolTable {
    type V = Seq<Seq<char>>;

    /// The stored names, by symbol.
    closed spec fn view(&self) -> Seq<Seq<char>> {
        self.names@.map_values(|s: String| s@)
    }
}

impl SymbolTable {
    /// The name-to-symbol map and the name list agree.
    closed spec fn names_wf(&self) -> bool {
        &&& self.names@.len() <= u32::MAX
        &&& forall|i: int|
            0 <= i < self.names@.len() ==> #[trigger] self.map@.contains_key(self.names@[i]@)
                && self.map@[self.names@[i]@] == Symbol(i as u32)
        &&& forall|key: Seq<char>|
            #[trigger] self.map@.contains_key(key) ==> self.map@[key].0 < self.names@.len()
                && self.names@[self.map@[key].0 as int]@ == key
        &&& forall|i: int|
            0 <= i < self.names@.len() ==> nfc_normalized(#[trigger] self.names@[i]@)
                == self.names@[i]@
    }

    /// The symbol recorded for each keyword names the keyword's spelling.
    closed spec fn keywords_wf(&self) -> bool {
        &&& self.keywords@.len() == KEYWORD_COUNT
        &&& forall|k: Keyword|
            #![trigger self.keywords@[k.spec_index()]]
            self.keywords@[k.spec_index()].0 < self@.len() && self@[self.keywords@[
                k.spec_index()].0 as int] == nfc_normalized(k.spec_name())
    }

    pub closed spec fn wf(&self) -> bool {
        self.names_wf() && self.keywords_wf()
    }

    /// The symbol recorded for a keyword.
    pub closed spec fn spec_keyword_symbol(&self, kw: Keyword) -> Symbol {
        self.keywords@[kw.spec_index()]
    }

    /// A table holding exactly the keywords, interned in declaration order:
    /// the symbol of each keyword is its position in that order.
    pub fn new() -> (t: Self)
        ensures
            t.wf(),
            t@.len() == KEYWORD_COUNT,
            forall|k: Keyword|
                #![trigger k.spec_index()]
                t.spec_keyword_symbol(k) == Symbol(k.spec_index() as u32) && t@[k.spec_index()]
                    == k.spec_name(),
    {
        let mut table = SymbolTable {
            names: Vec::new(),
            map: StringHashMap::new(),
            keywords: Vec::new(),
        };
        let all = Keyword::all();
        let mut i: usize = 0;
        while i < all.len()
            invariant
                all@.len() == KEYWORD_COUNT,
                forall|j: int| 0 <= j < KEYWORD_COUNT ==> (#[trigger] all@[j]).spec_index() == j,
                i <= KEYWORD_COUNT,
                table.names_wf(),
                table@.len() == i,
                table.keywords@.len() == i,
                forall|j: int| 0 <= j < i ==> #[trigger] table.keywords@[j] == Symbol(j as u32),
                forall|j: int| 0 <= j < i ==> #[trigger] table@[j] == all@[j].spec_name(),
            decreases KEYWORD_COUNT - i,
        {
            let kw = all[i];
            let ghost before = table@;
            let ghost kws = table.keywords@;
            proof {
                lemma_keyword_name_normalized(kw);
                assert(!before.contains(kw.spec_name())) by {
                    if before.contains(kw.spec_name()) {
                        let j = choose|j: int| 0 <= j < before.len() && before[j] == kw.spec_name();
                        assert(table.keywords@[j] == Symbol(j as u32));
                        lemma_keyword_names_distinct(all@[j], kw);
                    }
                }
            }
            let sym = table.intern_normalized(kw.as_str());
            proof {
                assert(sym.0 == i) by {
                    if (sym.0 as int) < (i as int) {
                        assert(table@[sym.0 as int] == before[sym.0 as int]);
                        assert(before.contains(kw.spec_name()));
                    }
                }
            }
            table.keywords.push(sym);
            i = i + 1;
            proof {
                assert forall|j: int| 0 <= j < i implies #[trigger] table.keywords@[j] == Symbol(j as u32) by {
                    if j < i - 1 {
                        assert(table.keywords@[j] == kws[j]);
                    }
                }
                assert forall|j: int| 0 <= j < i implies #[trigger] table@[j] == all@[j].spec_name() by {
                    if j < i - 1 {
                        assert(before[j] == table@[j]);
                    }
                }
            }
        }
        proof {
            assert forall|k: Keyword|
                #![trigger table.keywords@[k.spec_index()]]
                table.keywords@[k.spec_index()].0 < table@.len() && table@[table.keywords@[
                    k.spec_index()].0 as int] == nfc_normalized(k.spec_name()) by {
                assert(all@[k.spec_index()] == k);
                assert(table.keywords@[k.spec_index()] == Symbol(k.spec_index() as u32));
                lemma_keyword_name_normalized(k);
            }
            assert forall|k: Keyword|
                #![trigger k.spec_index()]
                table.spec_keyword_symbol(k) == Symbol(k.spec_index() as u32) && table@[k.spec_index()]
                    == k.spec_name() by {
                assert(all@[k.spec_index()] == k);
                assert(table.keywords@[k.spec_index()] == Symbol(k.spec_index() as u32));
            }
        }
        table
    }

    /// Interns a name: its normalized form gets the symbol it already has, or
    /// a new symbol (the next position) when it is not yet stored.
    pub fn intern(&mut self, name: &str) -> (sym: Symbol)
        requires
            old(self).wf(),
            old(self)@.len() < u32::MAX,
        ensures
            final(self).wf(),
            forall|k: Keyword|
                #![trigger final(self).spec_keyword_symbol(k)]
                final(self).spec_keyword_symbol(k) == old(self).spec_keyword_symbol(k),
            (final(self)@, sym.0 as int) == interned(old(self)@, nfc_normalized(name@)),
    {
        let sym = self.intern_normalized(name);
        proof {
            assert forall|k: Keyword|
                #![trigger self.keywords@[k.spec_index()]]
                self.keywords@[k.spec_index()].0 < self@.len() && self@[self.keywords@[
                    k.spec_index()].0 as int] == nfc_normalized(k.spec_name()) by {
                let j = self.keywords@[k.spec_index()].0 as int;
                assert(old(self)@[j] == nfc_normalized(k.spec_name()));
                assert(old(self)@[j] == self@[j]);
            }
            old(self).lemma_names_distinct();
            let key = nfc_normalized(name@);
            if old(self)@.contains(key) {
                let i = old(self)@.index_of(key);
                assert(old(self)@[i] == key);
                assert(self@[sym.0 as int] == key);
            }
        }
        sym
    }

    /// Distinct symbols stand for distinct names.
    proof fn lemma_names_distinct(&self)
        requires
            self.names_wf(),
        ensures
            self@.no_duplicates(),
    {
        assert forall|i: int, j: int|
            0 <= i < self@.len() && 0 <= j < self@.len() && i != j implies self@[i] != self@[j] by {
            assert(self.map@.contains_key(self.names@[i]@));
            assert(self.map@.contains_key(self.names@[j]@));
        }
    }

    fn intern_normalized(&mut self, name: &str) -> (sym: Symbol)
        requires
            old(self).names_wf(),
            old(self)@.len() < u32::MAX,
        ensures
            final(self).names_wf(),
            final(self).keywords == old(self).keywords,
            old(self)@.contains(nfc_normalized(name@)) ==> final(self)@ == old(self)@,
            !old(self)@.contains(nfc_normalized(name@)) ==> final(self)@ == old(self)@.push(nfc_normalized(name@)),
            sym.0 < final(self)@.len(),
            final(self)@[sym.0 as int] == nfc_normalized(name@),
    {
        let normalized = if is_nfc(name) {
            proof {
                lemma_nfc_normalized_without_marks(name@);
            }
            name.to_owned()
        } else {
            normalized_nfc(name)
        };
        match self.map.get(normalized.as_str()) {
            Some(s) => {
                let sym = *s;
                assert(self@[sym.0 as int] == nfc_normalized(name@));
                assert(old(self)@.contains(nfc_normalized(name@)));
                return sym;
            },
            None => {},
        }
        assert(!old(self)@.contains(nfc_normalized(name@))) by {
            if old(self)@.contains(nfc_normalized(name@)) {
                let k = choose|k: int| 0 <= k < old(self)@.len() && old(self)@[k] == nfc_normalized(name@);
                assert(self.map@.contains_key(self.names@[k]@));
            }
        }
        let sym = Symbol(self.names.len() as u32);
        let ghost before = self.names@;
        self.names.push(normalized.clone());
        self.map.insert(normalized, sym);
        proof {
            assert(self@ =~= old(self)@.push(nfc_normalized(name@)));
            assert forall|key: Seq<char>| #[trigger] self.map@.contains_key(key) implies self.map@[key].0 < self.names@.len()
                && self.names@[self.map@[key].0 as int]@ == key by {
                if key != nfc_normalized(name@) {
                    assert(old(self).map@.contains_key(key));
                }
            }
            assert forall|i: int| 0 <= i < self.names@.len() implies #[trigger] self.map@.contains_key(self.names@[i]@)
                && self.map@[self.names@[i]@] == Symbol(i as u32) by {
                if i < before.len() {
                    assert(self.names@[i] == before[i]);
                    assert(old(self).map@.contains_key(before[i]@));
                }
            }
            lemma_nfc_normalized_idempotent(name@);
            assert forall|i: int| 0 <= i < self.names@.len() implies nfc_normalized(
                #[trigger] self.names@[i]@,
            ) == self.names@[i]@ by {
                if i < before.len() {
                    assert(self.names@[i] == before[i]);
                }
            }
        }
        sym
    }

    /// The symbol of a keyword.
    pub fn keyword_symbol(&self, kw: Keyword) -> (sym: Symbol)
        requires
            self.wf(),
        ensures
            sym == self.spec_keyword_symbol(kw),
            sym.0 < self@.len(),
            self@[sym.0 as int] == nfc_normalized(kw.spec_name()),
    {
        self.keywords[kw.index()]
    }

    /// Whether `sym` is the symbol of keyword `kw`.
    pub fn is_keyword(&self, sym: Symbol, kw: Keyword) -> (b: bool)
        requires
            self.wf(),
        ensures
            b == (sym == self.spec_keyword_symbol(kw)),
    {
        self.keywords[kw.index()] == sym
    }

    /// The name a symbol stands for.
    pub fn name(&self, sym: Symbol) -> (s: &str)
        requires
            sym.0 < self@.len(),
        ensures
            s@ == self@[sym.0 as int],
    {
        self.names[sym.0 as usize].as_str()
    }

    /// The number of stored names.
    pub fn len(&self) -> (n: usize)
        ensures
            n == self@.len(),
    {
        self.names.len()
    }

    pub fn is_empty(&self) -> (b: bool)
        ensures
            b == (self@.len() == 0),
    {
        self.names.len() == 0
    }
}

impl Symbol {
    /// The name this symbol stands for in `table`.
    pub fn as_str(self, table: &SymbolTable) -> (s: &str)
        requires
            self.0 < table@.len(),
        ensures
            s@ == table@[self.0 as int],
    {
        table.name(self)
    }
}

/// Every keyword is found again from its spelling.
pub proof fn lemma_keyword_roundtrip(k: Keyword)
    ensures
        keyword_named(k.spec_name()) == Some(k),
{
    let c = choose|c: Keyword| c.spec_name() == k.spec_name();
    lemma_keyword_names_distinct(c, k);
}

/// Every stored name is in normalized form, so interning the name of a
/// symbol changes nothing and gives that symbol back.
pub proof fn lemma_intern_own_name(t: SymbolTable, i: int)
    requires
        t.wf(),
        0 <= i < t@.len(),
    ensures
        nfc_normalized(t@[i]) == t@[i],
        interned(t@, nfc_normalized(t@[i])) == (t@, i),
{
    t.lemma_names_distinct();
    assert(t.names@[i]@ == t@[i]);
    assert(t@.contains(t@[i]));
    let j = t@.index_of(t@[i]);
    assert(t@[j] == t@[i]);
}

/// The spelling of every keyword, character by character, and each spelling
/// is recognized as its own keyword.
pub proof fn lemma_keyword_spellings()
    ensures
        Keyword::Lambda.spec_name() == seq!['l', 'a', 'm', 'b', 'd', 'a'],
        Keyword::If.spec_name() == seq!['i', 'f'],
        Keyword::SetBang.spec_name() == seq!['s', 'e', 't', '!'],
        Keyword::Quote.spec_name() == seq!['q', 'u', 'o', 't', 'e'],
        Keyword::DefineSyntax.spec_name() == seq!['d', 'e', 'f', 'i', 'n', 'e', '_', 's', 'y', 'n', 't', 'a', 'x'],
        Keyword::SyntaxRules.spec_name() == seq!['s', 'y', 'n', 't', 'a', 'x', '_', 'r', 'u', 'l', 'e', 's'],
        Keyword::Define.spec_name() == seq!['d', 'e', 'f', 'i', 'n', 'e'],
        Keyword::Begin.spec_name() == seq!['b', 'e', 'g', 'i', 'n'],
        Keyword::Module.spec_name() == seq!['m', 'o', 'd', 'u', 'l', 'e'],
        Keyword::Import.spec_name() == seq!['i', 'm', 'p', 'o', 'r', 't'],
        Keyword::Export.spec_name() == seq!['e', 'x', 'p', 'o', 'r', 't'],
        Keyword::Let.spec_name() == seq!['l', 'e', 't'],
        Keyword::LetRec.spec_name() == seq!['l', 'e', 't', 'r', 'e', 'c'],
        Keyword::LetStar.spec_name() == seq!['l', 'e', 't', '*'],
        Keyword::Cond.spec_name() == seq!['c', 'o', 'n', 'd'],
        Keyword::Else.spec_name() == seq!['e', 'l', 's', 'e'],
        Keyword::And.spec_name() == seq!['a', 'n', 'd'],
        Keyword::Or.spec_name() == seq!['o', 'r'],
        Keyword::While.spec_name() == seq!['w', 'h', 'i', 'l', 'e'],
        keyword_named(seq!['l', 'a', 'm', 'b', 'd', 'a']) == Some(Keyword::Lambda),
        keyword_named(seq!['i', 'f']) == Some(Keyword::If),
        keyword_named(seq!['s', 'e', 't', '!']) == Some(Keyword::SetBang),
        keyword_named(seq!['q', 'u', 'o', 't', 'e']) == Some(Keyword::Quote),
        keyword_named(seq!['d', 'e', 'f', 'i', 'n', 'e', '_', 's', 'y', 'n', 't', 'a', 'x']) == Some(Keyword::DefineSyntax),
        keyword_named(seq!['s', 'y', 'n', 't', 'a', 'x', '_', 'r', 'u', 'l', 'e', 's']) == Some(Keyword::SyntaxRules),
        keyword_named(seq!['d', 'e', 'f', 'i', 'n', 'e']) == Some(Keyword::Define),
        keyword_named(seq!['b', 'e', 'g', 'i', 'n']) == Some(Keyword::Begin),
        keyword_named(seq!['m', 'o', 'd', 'u', 'l', 'e']) == Some(Keyword::Module),
        keyword_named(seq!['i', 'm', 'p', 'o', 'r', 't']) == Some(Keyword::Import),
        keyword_named(seq!['e', 'x', 'p', 'o', 'r', 't']) == Some(Keyword::Export),
        keyword_named(seq!['l', 'e', 't']) == Some(Keyword::Let),
        keyword_named(seq!['l', 'e', 't', 'r', 'e', 'c']) == Some(Keyword::LetRec),
        keyword_named(seq!['l', 'e', 't', '*']) == Some(Keyword::LetStar),
        keyword_named(seq!['c', 'o', 'n', 'd']) == Some(Keyword::Cond),
        keyword_named(seq!['e', 'l', 's', 'e']) == Some(Keyword::Else),
        keyword_named(seq!['a', 'n', 'd']) == Some(Keyword::And),
        keyword_named(seq!['o', 'r']) == Some(Keyword::Or),
        keyword_named(seq!['w', 'h', 'i', 'l', 'e']) == Some(Keyword::While),
{
    reveal_strlit("lambda");
    reveal_strlit("if");
    reveal_strlit("set!");
    reveal_strlit("quote");
    reveal_strlit("define_syntax");
    reveal_strlit("syntax_rules");
    reveal_strlit("define");
    reveal_strlit("begin");
    reveal_strlit("module");
    reveal_strlit("import");
    reveal_strlit("export");
    reveal_strlit("let");
    reveal_strlit("letrec");
    reveal_strlit("let*");
    reveal_strlit("cond");
    reveal_strlit("else");
    reveal_strlit("and");
    reveal_strlit("or");
    reveal_strlit("while");
    assert(Keyword::Lambda.spec_name() =~= seq!['l', 'a', 'm', 'b', 'd', 'a']);
    assert(Keyword::If.spec_name() =~= seq!['i', 'f']);
    assert(Keyword::SetBang.spec_name() =~= seq!['s', 'e', 't', '!']);
    assert(Keyword::Quote.spec_name() =~= seq!['q', 'u', 'o', 't', 'e']);
    assert(Keyword::DefineSyntax.spec_name() =~= seq!['d', 'e', 'f', 'i', 'n', 'e', '_', 's', 'y', 'n', 't', 'a', 'x']);
    assert(Keyword::SyntaxRules.spec_name() =~= seq!['s', 'y', 'n', 't', 'a', 'x', '_', 'r', 'u', 'l', 'e', 's']);
    assert(Keyword::Define.spec_name() =~= seq!['d', 'e', 'f', 'i', 'n', 'e']);
    assert(Keyword::Begin.spec_name() =~= seq!['b', 'e', 'g', 'i', 'n']);
    assert(Keyword::Module.spec_name() =~= seq!['m', 'o', 'd', 'u', 'l', 'e']);
    assert(Keyword::Import.spec_name() =~= seq!['i', 'm', 'p', 'o', 'r', 't']);
    assert(Keyword::Export.spec_name() =~= seq!['e', 'x', 'p', 'o', 'r', 't']);
    assert(Keyword::Let.spec_name() =~= seq!['l', 'e', 't']);
    assert(Keyword::LetRec.spec_name() =~= seq!['l', 'e', 't', 'r', 'e', 'c']);
    assert(Keyword::LetStar.spec_name() =~= seq!['l', 'e', 't', '*']);
    assert(Keyword::Cond.spec_name() =~= seq!['c', 'o', 'n', 'd']);
    assert(Keyword::Else.spec_name() =~= seq!['e', 'l', 's', 'e']);
    assert(Keyword::And.spec_name() =~= seq!['a', 'n', 'd']);
    assert(Keyword::Or.spec_name() =~= seq!['o', 'r']);
    assert(Keyword::While.spec_name() =~= seq!['w', 'h', 'i', 'l', 'e']);
    lemma_keyword_roundtrip(Keyword::Lambda);
    lemma_keyword_roundtrip(Keyword::If);
    lemma_keyword_roundtrip(Keyword::SetBang);
    lemma_keyword_roundtrip(Keyword::Quote);
    lemma_keyword_roundtrip(Keyword::DefineSyntax);
    lemma_keyword_roundtrip(Keyword::SyntaxRules);
    lemma_keyword_roundtrip(Keyword::Define);
    lemma_keyword_roundtrip(Keyword::Begin);
    lemma_keyword_roundtrip(Keyword::Module);
    lemma_keyword_roundtrip(Keyword::Import);
    lemma_keyword_roundtrip(Keyword::Export);
    lemma_keyword_roundtrip(Keyword::Let);
    lemma_keyword_roundtrip(Keyword::LetRec);
    lemma_keyword_roundtrip(Keyword::LetStar);
    lemma_keyword_roundtrip(Keyword::Cond);
    lemma_keyword_roundtrip(Keyword::Else);
    lemma_keyword_roundtrip(Keyword::And);
    lemma_keyword_roundtrip(Keyword::Or);
    lemma_keyword_roundtrip(Keyword::While);
}

/// A table never stores the same name twice.
pub proof fn lemma_wf_no_duplicates(t: SymbolTable)
    requires
        t.wf(),
    ensures
        t@.no_duplicates(),
{
    t.lemma_names_distinct();
}

/// Interning reads back: the symbol stands for the interned key, and the
/// names already stored keep their symbols.
pub proof fn lemma_intern_reads_back(names: Seq<Seq<char>>, key: Seq<char>)
    requires
        names.no_duplicates(),
    ensures
        ({
            let (after, sym) = interned(names, key);
            &&& 0 <= sym < after.len()
            &&& after[sym] == key
            &&& names.len() <= after.len() <= names.len() + 1
            &&& forall|i: int| 0 <= i < names.len() ==> after[i] == names[i]
            &&& after.no_duplicates()
        }),
{
    if names.contains(key) {
        let i = names.index_of(key);
        assert(names[i] == key);
    } else {
        let after = names.push(key);
        assert forall|i: int, j: int|
            0 <= i < after.len() && 0 <= j < after.len() && i != j implies after[i] != after[j] by {
            if i < names.len() && j < names.len() {
            } else if i < names.len() {
                assert(names.contains(names[i]));
            } else {
                assert(names.contains(names[j]));
            }
        }
    }
}

/// Interning the same key again changes nothing and gives the same symbol.
pub proof fn lemma_intern_idempotent(names: Seq<Seq<char>>, key: Seq<char>)
    requires
        names.no_duplicates(),
    ensures
        interned(interned(names, key).0, key) == interned(names, key),
{
    lemma_intern_reads_back(names, key);
    let (after, sym) = interned(names, key);
    assert(after.contains(key)) by {
        assert(after[sym] == key);
    }
    let j = after.index_of(key);
    assert(after[j] == key);
}

/// Interning two keys in turn gives them the same symbol exactly when the
/// keys are equal.
pub proof fn lemma_intern_injective(names: Seq<Seq<char>>, a: Seq<char>, b: Seq<char>)
    requires
        names.no_duplicates(),
    ensures
        ({
            let (after_a, sym_a) = interned(names, a);
            let (after_b, sym_b) = interned(after_a, b);
            (sym_a == sym_b) <==> (a == b)
        }),
{
    lemma_intern_reads_back(names, a);
    let (after_a, sym_a) = interned(names, a);
    lemma_intern_reads_back(after_a, b);
    let (after_b, sym_b) = interned(after_a, b);
    assert(after_b[sym_a] == after_a[sym_a]);
}

/// Two spellings are the same identifier exactly when their normalized forms
/// are equal: interning one and then the other gives one symbol iff the
/// normalized forms agree.
pub proof fn lemma_same_symbol_iff_same_normal_form(
    names: Seq<Seq<char>>,
    a: Seq<char>,
    b: Seq<char>,
)
    requires
        names.no_duplicates(),
    ensures
        ({
            let (after_a, sym_a) = interned(names, nfc_normalized(a));
            let (after_b, sym_b) = interned(after_a, nfc_normalized(b));
            (sym_a == sym_b) <==> (nfc_normalized(a) == nfc_normalized(b))
        }),
{
    lemma_intern_injective(names, nfc_normalized(a), nfc_normalized(b));
}

/// A base letter followed by a combining mark that composes with it is the
/// same identifier as the precomposed letter, whatever precedes them.
pub proof fn lemma_composed_equals_precomposed(prefix: Seq<char>, base: char, mark: char)
    requires
        !spec_is_combining_mark(base),
        spec_compose_mark(base, mark) is Some,
        !spec_is_combining_mark(spec_compose_mark(base, mark)->0),
    ensures
        nfc_normalized(prefix.push(base).push(mark)) == nfc_normalized(
            prefix.push(spec_compose_mark(base, mark)->0),
        ),
{
    let pb = prefix.push(base);
    assert(pb.push(mark).drop_last() =~= pb);
    assert(pb.drop_last() =~= prefix);
    let p = spec_compose_mark(base, mark)->0;
    assert(prefix.push(p).drop_last() =~= prefix);
    assert(nfc_normalized(pb) == nfc_normalized(prefix).push(base));
    assert(nfc_normalized(pb).drop_last() =~= nfc_normalized(prefix));
}

/// The keywords are already interned: interning a keyword's spelling in a
/// table changes nothing and gives the keyword's symbol.
pub proof fn lemma_keyword_interned(t: SymbolTable, k: Keyword)
    requires
        t.wf(),
    ensures
        interned(t@, nfc_normalized(k.spec_name())) == (t@, t.spec_keyword_symbol(k).0 as int),
{
    t.lemma_names_distinct();
    let i = t.spec_keyword_symbol(k).0 as int;
    assert(t@[i] == nfc_normalized(k.spec_name()));
    assert(t@.contains(nfc_normalized(k.spec_name())));
    let j = t@.index_of(nfc_normalized(k.spec_name()));
    assert(t@[j] == nfc_normalized(k.spec_name()));
}

} // verus!
