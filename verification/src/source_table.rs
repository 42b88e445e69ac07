//! The table of source files: file ids, line tables, and the rendering of
//! byte offsets as `file:line:col` locations and source excerpts.

use vstd::prelude::*;
use vstd::string::{StrSliceExecFns, StringSliceAdditionalSpecFns};
use vstd::utf8::*;

use crate::search::{binary_search, strictly_ascending};
use crate::text::{
    decimal, lemma_decimal_len, pad_left, push_char, push_decimal, push_padded_decimal, push_repeat, push_str,
    repeat_char,
};

verus! {

/// The byte offset `offset`, clamped to a text of `len` bytes.
pub open spec fn clamp(offset: u32, len: nat) -> int {
    if offset <= len {
        offset as int
    } else {
        len as int
    }
}

/// The number of newline bytes in `b`.
pub open spec fn count_newlines(b: Seq<u8>) -> nat
    decreases b.len(),
{
    if b.len() == 0 {
        0
    } else {
        count_newlines(b.drop_last()) + if b.last() == 10u8 {
            1nat
        } else {
            0nat
        }
    }
}

/// The offset where the line holding byte `off` begins: just after the last
/// newline before `off`, or 0 when there is none.
pub open spec fn line_start_before(b: Seq<u8>, off: int) -> int
    decreases off,
{
    if off <= 0 {
        0
    } else if b[off - 1] == 10u8 {
        off
    } else {
        line_start_before(b, off - 1)
    }
}

/// The line-start offsets of the first `n` bytes of `b`: 0, then the offset
/// just after each newline, in order.
pub open spec fn line_starts_upto(b: Seq<u8>, n: int) -> Seq<u32>
    decreases n,
{
    if n <= 0 {
        seq![0u32]
    } else if b[n - 1] == 10u8 {
        line_starts_upto(b, n - 1).push(n as u32)
    } else {
        line_starts_upto(b, n - 1)
    }
}

/// The line-start offsets of the whole text `b`.
pub open spec fn line_starts_of(b: Seq<u8>) -> Seq<u32> {
    line_starts_upto(b, b.len() as int)
}

/// The 1-based (line, column) of byte `offset` (clamped to the text) in a
/// source text: the line counts the newlines before the offset, the column
/// counts the characters (not bytes) between the line start and the offset.
pub open spec fn spec_line_col(src: Seq<char>, offset: u32) -> (u32, u32) {
    let b = encode_utf8(src);
    let off = clamp(offset, b.len());
    (
        (1 + count_newlines(b.take(off))) as u32,
        (1 + decode_utf8(b.subrange(line_start_before(b, off), off)).len()) as u32,
    )
}

/// The byte offset (clamped to the text) falls on a character boundary, so
/// that it names a position between characters.
pub open spec fn offset_on_char_boundary(src: Seq<char>, offset: u32) -> bool {
    is_char_boundary(encode_utf8(src), clamp(offset, encode_utf8(src).len()))
}

/// `s` without its trailing `'\n'` and `'\r'` characters.
pub open spec fn trim_line_end(s: Seq<char>) -> Seq<char>
    decreases s.len(),
{
    if s.len() > 0 && (s.last() == '\n' || s.last() == '\r') {
        trim_line_end(s.drop_last())
    } else {
        s
    }
}

/// The text of the 1-based line `line` (line 0 is read as line 1) without its
/// line terminator; empty when the text has fewer lines.
pub open spec fn spec_line_text(src: Seq<char>, line: u32) -> Seq<char> {
    let b = encode_utf8(src);
    let ls = line_starts_of(b);
    let si: int = if line >= 1 {
        line - 1
    } else {
        0
    };
    if si >= ls.len() {
        seq![]
    } else {
        let start = ls[si] as int;
        let end = if si + 1 < ls.len() {
            ls[si + 1] as int
        } else {
            b.len() as int
        };
        trim_line_end(decode_utf8(b.subrange(start, end)))
    }
}

proof fn lemma_line_starts(b: Seq<u8>, n: int)
    requires
        0 <= n <= b.len(),
        b.len() < u32::MAX,
    ensures
        line_starts_upto(b, n).len() == count_newlines(b.take(n)) + 1,
        line_starts_upto(b, n).len() <= n + 1,
        line_starts_upto(b, n)[0] == 0,
        line_starts_upto(b, n).last() == line_start_before(b, n),
        strictly_ascending(line_starts_upto(b, n)),
        forall|i: int|
            0 <= i < line_starts_upto(b, n).len() ==> {
                let v = #[trigger] line_starts_upto(b, n)[i];
                &&& v <= n
                &&& (v == 0 || b[v - 1] == 10u8)
            },
    decreases n,
{
    if n > 0 {
        lemma_line_starts(b, n - 1);
        assert(b.take(n).drop_last() =~= b.take(n - 1));
    } else {
        assert(b.take(0) =~= Seq::<u8>::empty());
    }
}

proof fn lemma_line_starts_prefix(b: Seq<u8>, m: int, n: int)
    requires
        0 <= m <= n <= b.len(),
        b.len() < u32::MAX,
    ensures
        line_starts_upto(b, m).len() <= line_starts_upto(b, n).len(),
        forall|j: int|
            0 <= j < line_starts_upto(b, m).len() ==> line_starts_upto(b, n)[j]
                == line_starts_upto(b, m)[j],
        forall|j: int|
            line_starts_upto(b, m).len() <= j < line_starts_upto(b, n).len()
                ==> line_starts_upto(b, n)[j] > m,
    decreases n,
{
    if n > m {
        lemma_line_starts_prefix(b, m, n - 1);
    }
}

/// In valid UTF-8, the byte after a one-byte character starts a character.
proof fn lemma_boundary_after_ascii(bytes: Seq<u8>, i: int)
    requires
        valid_utf8(bytes),
        0 < i <= bytes.len(),
        is_char_boundary(bytes, i - 1),
        is_leading_byte_width_1(bytes[i - 1]),
    ensures
        is_char_boundary(bytes, i),
    decreases bytes.len(),
{
    reveal_with_fuel(is_char_boundary, 2);
    let l = length_of_first_scalar(bytes);
    let rest = pop_first_scalar(bytes);
    if i - 1 == 0 {
        assert(l == 1);
        assert(is_char_boundary(rest, 0));
    } else {
        assert(is_char_boundary(rest, i - 1 - l));
        assert(rest[i - 1 - l] == bytes[i - 1]);
        lemma_boundary_after_ascii(rest, i - l);
    }
}

/// A text has at least as many bytes as characters.
proof fn lemma_encode_len(cs: Seq<char>)
    ensures
        encode_utf8(cs).len() >= cs.len(),
    decreases cs.len(),
{
    if cs.len() > 0 {
        lemma_encode_len(cs.drop_first());
    }
}

/// A line start of `b` (0, or just after a newline) is a character boundary
/// of every prefix of `b` that contains it.
proof fn lemma_line_start_boundary(b: Seq<u8>, end: int, v: int)
    requires
        valid_utf8(b),
        is_char_boundary(b, end),
        0 <= v <= end <= b.len(),
        v == 0 || b[v - 1] == 10u8,
    ensures
        is_char_boundary(b.subrange(0, end), v),
{
    let h = b.subrange(0, end);
    valid_utf8_split(b, end);
    if v > 0 {
        assert(h[v - 1] == 10u8);
        is_char_boundary_iff_not_is_continuation_byte(h, v - 1);
        lemma_boundary_after_ascii(h, v);
    }
}

/// What a source file holds, as mathematical values: its name and its text.
pub struct FileView {
    pub name: Seq<char>,
    pub src: Seq<char>,
}

/// A source file: its name, its text, and the byte offsets where its lines
/// begin.
#[derive(Debug, Clone)]
pub struct SourceFile {
    pub name: String,
    pub src: String,
    line_starts: Vec<u32>,
}

impl View for SourceFile {
    type V = FileView;

    closed spec fn view(&self) -> FileView {
        FileView { name: self.name@, src: self.src@ }
    }
}

impl SourceFile {
    /// The line table matches the text, and every offset fits in a `u32`.
    pub closed spec fn wf(&self) -> bool {
        &&& encode_utf8(self.src@).len() < u32::MAX
        &&& self.line_starts@ == line_starts_of(encode_utf8(self.src@))
    }

    fn new(name: &str, src: &str) -> (f: Self)
        requires
            encode_utf8(src@).len() < u32::MAX,
        ensures
            f@ == (FileView { name: name@, src: src@ }),
            f.wf(),
    {
        let line_starts = compute_line_starts(src);
        SourceFile { name: name.to_owned(), src: src.to_owned(), line_starts }
    }

    /// The file's name.
    pub fn name(&self) -> (s: &str)
        ensures
            s@ == self@.name,
    {
        self.name.as_str()
    }

    /// The file's text.
    pub fn src(&self) -> (s: &str)
        ensures
            s@ == self@.src,
    {
        self.src.as_str()
    }

    /// A well-formed file's text is shorter than `u32::MAX` bytes, so every
    /// byte offset and the offset just past the end fit in a `u32`.
    pub proof fn lemma_wf_len(&self)
        requires
            self.wf(),
        ensures
            encode_utf8(self@.src).len() < u32::MAX,
    {
    }

    /// The 1-based (line, column) of a byte offset; offsets past the end are
    /// clamped to the end of the text.
    pub fn line_col(&self, offset: u32) -> (r: (u32, u32))
        requires
            self.wf(),
            offset_on_char_boundary(self@.src, offset),
        ensures
            r == spec_line_col(self@.src, offset),
    {
        let s = self.src.as_str();
        let ghost b = encode_utf8(self.src@);
        let len = s.len();
        let off: u32 = if (offset as usize) <= len {
            offset
        } else {
            len as u32
        };
        assert(off as int == clamp(offset, b.len()));
        proof {
            lemma_line_starts(b, b.len() as int);
            lemma_line_starts(b, off as int);
            lemma_line_starts_prefix(b, off as int, b.len() as int);
        }
        let ghost ls = self.line_starts@;
        let ghost k = count_newlines(b.take(off as int)) as int;
        assert(ls[k] <= off);
        assert(k + 1 < ls.len() ==> ls[k + 1] > off);
        let idx: usize = match binary_search(&self.line_starts, off) {
            Ok(i) => i,
            Err(i) => {
                if i > 0 {
                    i - 1
                } else {
                    0
                }
            },
        };
        assert(idx == k) by {
            assert(ls[0] == 0);
        }
        let line_start = self.line_starts[idx];
        proof {
            encode_utf8_valid_utf8(self@.src);
            assert(s.spec_bytes() == b);
            lemma_line_start_boundary(b, off as int, line_start as int);
        }
        let (head, _) = s.split_at(off as usize);
        let (_, piece) = head.split_at(line_start as usize);
        assert(piece.spec_bytes() =~= b.subrange(line_start as int, off as int));
        let col = piece.unicode_len();
        proof {
            encode_utf8_decode_utf8(piece@);
            lemma_encode_len(piece@);
        }
        ((idx + 1) as u32, (col + 1) as u32)
    }

    /// The text of the 1-based line `line`, without its line terminator.
    pub fn line_text(&self, line: u32) -> (r: &str)
        requires
            self.wf(),
        ensures
            r@ == spec_line_text(self@.src, line),
    {
        let s = self.src.as_str();
        let ghost b = encode_utf8(self.src@);
        let ghost ls = self.line_starts@;
        proof {
            lemma_line_starts(b, b.len() as int);
            encode_utf8_valid_utf8(self@.src);
            is_char_boundary_start_end_of_seq(b);
            assert(s.spec_bytes() == b);
        }
        let start_idx: usize = if line >= 1 {
            (line - 1) as usize
        } else {
            0
        };
        if start_idx >= self.line_starts.len() {
            proof {
                reveal_strlit("");
            }
            return "";
        }
        let start = self.line_starts[start_idx] as usize;
        let end: usize = if start_idx + 1 < self.line_starts.len() {
            self.line_starts[start_idx + 1] as usize
        } else {
            s.len()
        };
        proof {
            if start_idx + 1 < ls.len() {
                lemma_line_start_boundary(b, b.len() as int, end as int);
                assert(b.subrange(0, b.len() as int) =~= b);
            }
            lemma_line_start_boundary(b, end as int, start as int);
        }
        let (head, _) = s.split_at(end);
        let (_, piece) = head.split_at(start);
        assert(piece.spec_bytes() =~= b.subrange(start as int, end as int));
        proof {
            encode_utf8_decode_utf8(piece@);
        }
        let n = piece.unicode_len();
        let mut k = n;
        assert(piece@.take(n as int) =~= piece@);
        loop
            invariant
                k <= n,
                n == piece@.len(),
                trim_line_end(piece@) == trim_line_end(piece@.take(k as int)),
            ensures
                k <= n,
                trim_line_end(piece@) == piece@.take(k as int),
            decreases k,
        {
            if k == 0 {
                assert(piece@.take(0) =~= Seq::<char>::empty());
                break;
            }
            let c = piece.get_char(k - 1);
            if c == '\n' || c == '\r' {
                assert(piece@.take(k as int).drop_last() =~= piece@.take(k - 1));
                k = k - 1;
            } else {
                break;
            }
        }
        piece.substring_char(0, k)
    }
}

/// The location text for a byte offset of a file: `name:line:col`, followed
/// by ` (expansion N)` for a nonzero expansion generation; for an unknown
/// file, `<unknown file ID>`.
pub open spec fn spec_render_location(
    files: Seq<FileView>,
    file_id: u32,
    offset: u32,
    expansion_id: u32,
) -> Seq<char> {
    if file_id < files.len() {
        let f = files[file_id as int];
        let lc = spec_line_col(f.src, offset);
        let base = f.name + seq![':'] + decimal(lc.0 as nat) + seq![':'] + decimal(lc.1 as nat);
        if expansion_id > 0 {
            base + " (expansion "@ + decimal(expansion_id as nat) + seq![')']
        } else {
            base
        }
    } else {
        "<unknown file "@ + decimal(file_id as nat) + seq!['>']
    }
}

/// The two-line source excerpt for a byte offset of a file: the line number
/// right-aligned in four columns, ` | ` and the line's text; then a gutter and
/// a caret under the offset's column. Empty for an unknown file.
pub open spec fn spec_excerpt(files: Seq<FileView>, file_id: u32, offset: u32) -> Seq<char> {
    if file_id < files.len() {
        let f = files[file_id as int];
        let lc = spec_line_col(f.src, offset);
        let pad: nat = if lc.1 >= 1 {
            (lc.1 - 1) as nat
        } else {
            0
        };
        pad_left(decimal(lc.0 as nat), 4, ' ') + " | "@ + spec_line_text(f.src, lc.0) + "\n     | "@
            + repeat_char(' ', pad) + seq!['^']
    } else {
        seq![]
    }
}

/// The registry of source files; a file's id is its position.
#[derive(Debug, Clone)]
pub struct SourceTable {
    files: Vec<SourceFile>,
}

impl View for SourceTable {
    type V = Seq<FileView>;

    closed spec fn view(&self) -> Seq<FileView> {
        self.files@.map_values(|f: SourceFile| f@)
    }
}

impl Default for SourceTable {
    fn default() -> (t: Self)
        ensures
            t.wf(),
            t@ == Seq::<FileView>::empty(),
    {
        SourceTable::new()
    }
}

impl SourceTable {
    /// Every file of a well-formed table is shorter than `u32::MAX` bytes.
    pub proof fn lemma_wf_file_len(&self, file_id: u32)
        requires
            self.wf(),
            file_id < self@.len(),
        ensures
            encode_utf8(self@[file_id as int].src).len() < u32::MAX,
    {
        assert(self.files@[file_id as int].wf());
    }

    /// Every file's line table is consistent, and every id fits in a `u32`.
    pub closed spec fn wf(&self) -> bool {
        &&& self.files@.len() <= u32::MAX
        &&& forall|i: int| 0 <= i < self.files@.len() ==> (#[trigger] self.files@[i]).wf()
    }

    /// A location of a known file must fall on a character boundary (clamped
    /// to the file's end); every location of an unknown file is fine.
    pub open spec fn can_locate(&self, file_id: u32, offset: u32) -> bool {
        file_id < self@.len() ==> offset_on_char_boundary(self@[file_id as int].src, offset)
    }

    pub fn new() -> (t: Self)
        ensures
            t.wf(),
            t@ == Seq::<FileView>::empty(),
    {
        let t = SourceTable { files: Vec::new() };
        assert(t@ =~= Seq::<FileView>::empty());
        t
    }

    /// Registers a file and returns its id, the number of files before it.
    pub fn add_file(&mut self, name: &str, src: &str) -> (id: u32)
        requires
            old(self).wf(),
            old(self)@.len() < u32::MAX,
            encode_utf8(src@).len() < u32::MAX,
        ensures
            final(self).wf(),
            id == old(self)@.len(),
            final(self)@ == old(self)@.push(FileView { name: name@, src: src@ }),
    {
        let id = self.files.len() as u32;
        let f = SourceFile::new(name, src);
        self.files.push(f);
        assert(self@ =~= old(self)@.push(FileView { name: name@, src: src@ }));
        id
    }

    /// The file with id `file_id`, if there is one.
    pub fn file(&self, file_id: u32) -> (r: Option<&SourceFile>)
        requires
            self.wf(),
        ensures
            r is Some <==> file_id < self@.len(),
            r matches Some(f) ==> f@ == self@[file_id as int] && f.wf() && encode_utf8(
                f@.src,
            ).len() < u32::MAX,
    {
        if (file_id as usize) < self.files.len() {
            Some(&self.files[file_id as usize])
        } else {
            None
        }
    }

    pub fn len(&self) -> (n: usize)
        ensures
            n == self@.len(),
    {
        self.files.len()
    }

    /// Whether a location can be rendered: the file is unknown, or the
    /// offset (clamped to the file's end) falls on a character boundary.
    pub fn is_locatable(&self, file_id: u32, offset: u32) -> (b: bool)
        requires
            self.wf(),
        ensures
            b == self.can_locate(file_id, offset),
    {
        match self.file(file_id) {
            None => true,
            Some(f) => {
                let s = f.src.as_str();
                assert(s.spec_bytes() == encode_utf8(f@.src));
                let len = s.len();
                let off: usize = if (offset as usize) <= len {
                    offset as usize
                } else {
                    len
                };
                s.is_char_boundary(off)
            },
        }
    }

    pub fn is_empty(&self) -> (b: bool)
        ensures
            b == (self@.len() == 0),
    {
        self.files.len() == 0
    }

    /// The readable location of a byte offset: `file:line:col`, with
    /// ` (expansion N)` for a nonzero expansion generation.
    pub fn render_location(&self, file_id: u32, offset: u32, expansion_id: u32) -> (r: String)
        requires
            self.wf(),
            self.can_locate(file_id, offset),
        ensures
            r@ == spec_render_location(self@, file_id, offset, expansion_id),
    {
        let mut out = String::new();
        match self.file(file_id) {
            Some(f) => {
                let (line, col) = f.line_col(offset);
                push_str(&mut out, f.name.as_str());
                push_char(&mut out, ':');
                push_decimal(&mut out, line);
                push_char(&mut out, ':');
                push_decimal(&mut out, col);
                if expansion_id > 0 {
                    push_str(&mut out, " (expansion ");
                    push_decimal(&mut out, expansion_id);
                    push_char(&mut out, ')');
                }
            },
            None => {
                push_str(&mut out, "<unknown file ");
                push_decimal(&mut out, file_id);
                push_char(&mut out, '>');
            },
        }
        assert(out@ =~= spec_render_location(self@, file_id, offset, expansion_id));
        out
    }

    /// The excerpt of the line holding a byte offset, with a caret under the
    /// offset's column; empty for an unknown file.
    pub fn excerpt(&self, file_id: u32, offset: u32) -> (r: String)
        requires
            self.wf(),
            self.can_locate(file_id, offset),
        ensures
            r@ == spec_excerpt(self@, file_id, offset),
    {
        let mut out = String::new();
        match self.file(file_id) {
            Some(f) => {
                let (line, col) = f.line_col(offset);
                let text = f.line_text(line);
                let pad: u32 = if col >= 1 {
                    col - 1
                } else {
                    0
                };
                push_padded_decimal(&mut out, line, 4, ' ');
                push_str(&mut out, " | ");
                push_str(&mut out, text);
                push_str(&mut out, "\n     | ");
                push_repeat(&mut out, ' ', pad);
                push_char(&mut out, '^');
            },
            None => {},
        }
        assert(out@ =~= spec_excerpt(self@, file_id, offset));
        out
    }
}

/// Registering a file appends it: the new id reads back the file's name and
/// text, and every earlier id still reads back its own file.
pub proof fn lemma_added_file_reads_back(files: Seq<FileView>, f: FileView)
    ensures
        files.push(f)[files.len() as int] == f,
        forall|i: int| 0 <= i < files.len() ==> files.push(f)[i] == files[i],
{
}

/// The first byte of a text is at line 1, column 1.
pub proof fn lemma_line_col_of_first_byte(src: Seq<char>)
    ensures
        spec_line_col(src, 0) == (1u32, 1u32),
{
    let b = encode_utf8(src);
    assert(b.take(0) =~= Seq::<u8>::empty());
    assert(b.subrange(0, 0) =~= Seq::<u8>::empty());
    assert(decode_utf8(Seq::<u8>::empty()) =~= Seq::<char>::empty());
}

/// The byte after a newline starts the next line: its line is one more
/// than the newline's, and its column is 1.
pub proof fn lemma_line_col_after_newline(src: Seq<char>, offset: u32)
    requires
        encode_utf8(src).len() < u32::MAX,
        0 < offset <= encode_utf8(src).len(),
        encode_utf8(src)[offset - 1] == 10u8,
    ensures
        spec_line_col(src, offset) == (
            (spec_line_col(src, (offset - 1) as u32).0 + 1) as u32,
            1u32,
        ),
{
    let b = encode_utf8(src);
    let off = offset as int;
    assert(b.take(off).drop_last() =~= b.take(off - 1));
    assert(b.subrange(off, off) =~= Seq::<u8>::empty());
    assert(decode_utf8(Seq::<u8>::empty()) =~= Seq::<char>::empty());
    lemma_count_newlines_bound(b.take(off - 1));
}

proof fn lemma_count_newlines_bound(b: Seq<u8>)
    ensures
        count_newlines(b) <= b.len(),
    decreases b.len(),
{
    if b.len() > 0 {
        lemma_count_newlines_bound(b.drop_last());
    }
}

/// The column of a character-boundary offset is at least 1 and counts at
/// most as many characters as there are bytes before the offset.
proof fn lemma_col_at_least_one(src: Seq<char>, offset: u32)
    requires
        encode_utf8(src).len() < u32::MAX,
        offset_on_char_boundary(src, offset),
    ensures
        1 <= spec_line_col(src, offset).1,
        spec_line_col(src, offset).1 as int == 1 + decode_utf8(
            encode_utf8(src).subrange(
                line_start_before(encode_utf8(src), clamp(offset, encode_utf8(src).len())),
                clamp(offset, encode_utf8(src).len()),
            ),
        ).len(),
{
    let b = encode_utf8(src);
    let off = clamp(offset, b.len());
    lemma_line_starts(b, off);
    let v = line_start_before(b, off);
    encode_utf8_valid_utf8(src);
    lemma_line_start_boundary(b, off, v);
    let h = b.subrange(0, off);
    valid_utf8_split(b, off);
    valid_utf8_split(h, v);
    let x = b.subrange(v, off);
    assert(h.subrange(v, h.len() as int) =~= x);
    decode_utf8_encode_utf8(x);
    lemma_encode_len(decode_utf8(x));
}

/// The excerpt is laid out in aligned columns: the first line holds the
/// line number right-aligned in a field of four characters (wider only for
/// numbers of five or more digits), ` | ` and the line's text; the second
/// line holds a gutter of five spaces and `| `, then spaces up to the caret.
/// Both lines put their text after the same seven-character prefix (for
/// line numbers below 10000), so the caret, at index `7 + (column - 1)` of
/// its line, stands in the offset's column of the text above it.
pub proof fn lemma_excerpt_alignment(files: Seq<FileView>, file_id: u32, offset: u32)
    requires
        file_id < files.len(),
        encode_utf8(files[file_id as int].src).len() < u32::MAX,
        offset_on_char_boundary(files[file_id as int].src, offset),
    ensures
        ({
            let src = files[file_id as int].src;
            let e = spec_excerpt(files, file_id, offset);
            let line = spec_line_col(src, offset).0;
            let col = spec_line_col(src, offset).1;
            let text = spec_line_text(src, line);
            let digits = decimal(line as nat);
            let w: int = if digits.len() >= 4 {
                digits.len() as int
            } else {
                4
            };
            &&& line < 10000 ==> w == 4
            &&& e.subrange(0, w) == repeat_char(' ', (w - digits.len()) as nat) + digits
            &&& e.subrange(w, w + 3) == seq![' ', '|', ' ']
            &&& e.subrange(w + 3, w + 3 + text.len()) == text
            &&& e[w + 3 + text.len()] == '\n'
            &&& col >= 1
            &&& e.len() == w + 3 + text.len() + 1 + 7 + (col - 1) + 1
            &&& e.subrange(w + 4 + text.len(), w + 11 + text.len()) == seq![
                ' ',
                ' ',
                ' ',
                ' ',
                ' ',
                '|',
                ' ',
            ]
            &&& forall|i: int|
                w + 11 + text.len() <= i < e.len() - 1 ==> e[i] == ' '
            &&& e[e.len() - 1] == '^'
        }),
{
    let src = files[file_id as int].src;
    let line = spec_line_col(src, offset).0;
    let col = spec_line_col(src, offset).1;
    let text = spec_line_text(src, line);
    let digits = decimal(line as nat);
    lemma_decimal_len(line as nat);
    lemma_col_at_least_one(src, offset);
    reveal_strlit(" | ");
    reveal_strlit("\n     | ");
    let w: int = if digits.len() >= 4 {
        digits.len() as int
    } else {
        4
    };
    let field = pad_left(digits, 4, ' ');
    assert(field =~= repeat_char(' ', (w - digits.len()) as nat) + digits);
    let e = spec_excerpt(files, file_id, offset);
    let tail = repeat_char(' ', (col - 1) as nat) + seq!['^'];
    assert(e =~= field + seq![' ', '|', ' '] + text + seq!['\n', ' ', ' ', ' ', ' ', ' ', '|', ' ']
        + tail);
    assert(e.subrange(0, w) =~= field);
    assert(e.subrange(w, w + 3) =~= seq![' ', '|', ' ']);
    assert(e.subrange(w + 3, w + 3 + text.len()) =~= text);
    assert(e.subrange(w + 4 + text.len(), w + 11 + text.len()) =~= seq![
        ' ',
        ' ',
        ' ',
        ' ',
        ' ',
        '|',
        ' ',
    ]);
}

/// Trimming the line end keeps a prefix that ends neither in `'\n'` nor in
/// `'\r'`.
proof fn lemma_trim_line_end(x: Seq<char>)
    ensures
        trim_line_end(x).len() <= x.len(),
        forall|i: int| 0 <= i < trim_line_end(x).len() ==> trim_line_end(x)[i] == x[i],
        trim_line_end(x).len() > 0 ==> trim_line_end(x).last() != '\n' && trim_line_end(x).last()
            != '\r',
    decreases x.len(),
{
    if x.len() > 0 && (x.last() == '\n' || x.last() == '\r') {
        lemma_trim_line_end(x.drop_last());
        assert forall|i: int| 0 <= i < trim_line_end(x).len() implies trim_line_end(x)[i] == x[i] by {
            assert(x.drop_last()[i] == x[i]);
        }
    }
}

/// Valid UTF-8 without a newline byte decodes to text without `'\n'`.
proof fn lemma_decode_without_newline(s: Seq<u8>)
    requires
        valid_utf8(s),
        forall|i: int| 0 <= i < s.len() ==> s[i] != 10u8,
    ensures
        forall|i: int| 0 <= i < decode_utf8(s).len() ==> decode_utf8(s)[i] != '\n',
    decreases s.len(),
{
    if s.len() > 0 {
        let rest = pop_first_scalar(s);
        assert(forall|i: int| 0 <= i < rest.len() ==> rest[i] == s[i + length_of_first_scalar(s)]);
        lemma_decode_without_newline(rest);
        let b0 = s[0];
        let v = decode_first_scalar(s);
        if is_leading_byte_width_1(b0) {
            assert(b0 <= 0x7f ==> (b0 & 0x7f) == b0) by (bit_vector);
            assert(v == b0 as u32);
        } else {
            assert(v >= 0x80);
        }
        assert((v as char) != '\n') by {
            decode_utf8_first_scalar(s);
            if (v as char) == '\n' {
                assert(('\n' as u32) == 10u32);
                assert((10u32 & 0x7F) as u8 == 10u8) by (bit_vector);
                assert(encode_scalar(10u32) =~= seq![10u8]);
                assert(take_first_scalar(s)[0] == s[0]);
            }
        }
        let d = decode_utf8(s);
        assert(d == seq![decode_first_scalar(s) as char] + decode_utf8(rest));
        assert forall|i: int| 0 <= i < d.len() implies d[i] != '\n' by {
            if i > 0 {
                assert(d[i] == decode_utf8(rest)[i - 1]);
            }
        }
    }
}

/// A single newline byte decodes to a single `'\n'`.
proof fn lemma_decode_newline_byte()
    ensures
        decode_utf8(seq![10u8]) == seq!['\n'],
{
    let s = seq![10u8];
    assert((10u8 & 0x7f) == 10u8) by (bit_vector);
    assert(pop_first_scalar(s) =~= Seq::<u8>::empty());
    assert(valid_utf8(Seq::<u8>::empty()));
    assert(decode_utf8(s) =~= seq![decode_first_scalar(s) as char] + decode_utf8(Seq::<u8>::empty()));
}

/// A newline byte that is not the last byte of a line never occurs: between
/// two consecutive line starts the only newline is the byte just before the
/// second one, and after the last line start there is none.
proof fn lemma_no_inner_newline(b: Seq<u8>, k: int, p: int)
    requires
        b.len() < u32::MAX,
        0 <= k < line_starts_of(b).len(),
        line_starts_of(b)[k] <= p < b.len(),
        k + 1 < line_starts_of(b).len() ==> p + 1 < line_starts_of(b)[k + 1],
    ensures
        b[p] != 10u8,
{
    if b[p] == 10u8 {
        let ls = line_starts_of(b);
        lemma_line_starts(b, b.len() as int);
        lemma_line_starts(b, p + 1);
        lemma_line_starts_prefix(b, p + 1, b.len() as int);
        let j = line_starts_upto(b, p + 1).len() - 1;
        assert(ls[j] == p + 1);
        if j <= k {
            assert(ls[j] <= ls[k]);
        } else {
            assert(ls[k + 1] <= ls[j]);
        }
    }
}

/// The text of a line is a single line: it holds no `'\n'` and does not end
/// in `'\r'`.
pub proof fn lemma_line_text_is_single_line(src: Seq<char>, line: u32)
    requires
        encode_utf8(src).len() < u32::MAX,
    ensures
        forall|i: int|
            0 <= i < spec_line_text(src, line).len() ==> spec_line_text(src, line)[i] != '\n',
        spec_line_text(src, line).len() > 0 ==> spec_line_text(src, line).last() != '\r',
{
    let b = encode_utf8(src);
    let ls = line_starts_of(b);
    let si: int = if line >= 1 {
        line - 1
    } else {
        0
    };
    if si < ls.len() {
        lemma_line_starts(b, b.len() as int);
        encode_utf8_valid_utf8(src);
        is_char_boundary_start_end_of_seq(b);
        let start = ls[si] as int;
        let last = si + 1 >= ls.len();
        let end = if !last {
            ls[si + 1] as int
        } else {
            b.len() as int
        };
        if !last {
            lemma_line_start_boundary(b, b.len() as int, end);
            assert(b.subrange(0, b.len() as int) =~= b);
        }
        lemma_line_start_boundary(b, end, start);
        let h = b.subrange(0, end);
        valid_utf8_split(b, end);
        valid_utf8_split(h, start);
        let r = b.subrange(start, end);
        assert(h.subrange(start, h.len() as int) =~= r);
        let body_end = if last {
            end
        } else {
            end - 1
        };
        let body = b.subrange(start, body_end);
        assert forall|i: int| 0 <= i < body.len() implies body[i] != 10u8 by {
            lemma_no_inner_newline(b, si, start + i);
        }
        let x = decode_utf8(r);
        if last {
            assert(body =~= r);
            lemma_decode_without_newline(r);
            lemma_trim_line_end(x);
            assert forall|i: int| 0 <= i < trim_line_end(x).len() implies trim_line_end(x)[i]
                != '\n' by {
                assert(trim_line_end(x)[i] == x[i]);
            }
        } else {
            let m = body_end - start;
            is_char_boundary_iff_not_is_continuation_byte(r, m);
            decode_utf8_split(r, m);
            valid_utf8_split(r, m);
            assert(r.subrange(0, m) =~= body);
            assert(r.subrange(m, r.len() as int) =~= seq![10u8]);
            lemma_decode_newline_byte();
            lemma_decode_without_newline(body);
            let y = decode_utf8(body);
            assert(x =~= y.push('\n'));
            assert(x.drop_last() =~= y);
            assert(trim_line_end(x) == trim_line_end(y));
            lemma_trim_line_end(y);
            assert forall|i: int| 0 <= i < trim_line_end(x).len() implies trim_line_end(x)[i]
                != '\n' by {
                assert(trim_line_end(y)[i] == y[i]);
            }
        }
        assert(spec_line_text(src, line) == trim_line_end(x));
    }
}

/// The line-start offsets of a text.
fn compute_line_starts(src: &str) -> (v: Vec<u32>)
    requires
        encode_utf8(src@).len() < u32::MAX,
    ensures
        v@ == line_starts_of(encode_utf8(src@)),
{
    let bytes = src.as_bytes();
    let ghost b = encode_utf8(src@);
    let mut start_offsets: Vec<u32> = Vec::new();
    start_offsets.push(0);
    let mut i: usize = 0;
    while i < bytes.len()
        invariant
            bytes@ == b,
            b.len() < u32::MAX,
            i <= b.len(),
            start_offsets@ == line_starts_upto(b, i as int),
        decreases bytes.len() - i,
    {
        if bytes[i] == 10u8 {
            start_offsets.push((i + 1) as u32);
        }
        i = i + 1;
    }
    start_offsets
}

} // verus!
