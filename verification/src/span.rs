//! `Span`: an immutable source position (file, byte range, expansion generation).

use vstd::prelude::*;

use crate::text::{decimal, push_char, push_decimal, push_str};

verus! {

/// Source file id.
pub type FileId = u32;

/// Byte offset into a source file.
pub type ByteOffset = u32;

/// Macro expansion generation.
pub type ExpansionId = u32;

/// A half-open byte range `[start, end)` of one file, tagged with the
/// macro-expansion generation it was produced in.
#[derive(Debug, Clone, Copy, PartialEq, Eq, Hash, Default, Structural)]
pub struct Span {
    pub file_id: FileId,
    pub start: ByteOffset,
    pub end: ByteOffset,
    pub expansion_id: ExpansionId,
}

/// Two spans can be merged when they come from the same file and the same
/// expansion generation.
pub open spec fn same_origin(a: Span, b: Span) -> bool {
    a.file_id == b.file_id && a.expansion_id == b.expansion_id
}

pub open spec fn min_u32(a: u32, b: u32) -> u32 {
    if a <= b { a } else { b }
}

pub open spec fn max_u32(a: u32, b: u32) -> u32 {
    if a >= b { a } else { b }
}

/// The span that `a.merge(b)` returns.
pub open spec fn merged(a: Span, b: Span) -> Span {
    if same_origin(a, b) {
        Span {
            file_id: a.file_id,
            start: min_u32(a.start, b.start),
            end: max_u32(a.end, b.end),
            expansion_id: a.expansion_id,
        }
    } else {
        a
    }
}

/// The span one expansion generation later (saturating at `u32::MAX`).
pub open spec fn bumped(s: Span) -> Span {
    Span {
        expansion_id: if s.expansion_id < u32::MAX {
            (s.expansion_id + 1) as u32
        } else {
            u32::MAX
        },
        ..s
    }
}

/// The number of bytes a span covers: `end - start`, or 0 when `end <= start`.
pub open spec fn span_len(s: Span) -> u32 {
    if s.end >= s.start {
        (s.end - s.start) as u32
    } else {
        0
    }
}

/// A span is empty when it covers no byte.
pub open spec fn span_is_empty(s: Span) -> bool {
    s.end <= s.start
}

/// Membership of a byte offset in the half-open range of a span.
pub open spec fn span_contains(s: Span, offset: u32) -> bool {
    s.start <= offset && offset < s.end
}

/// The readable form of a span: `Span(file F, S..E)`, with `, exp N` before
/// the closing parenthesis for a nonzero expansion generation.
pub open spec fn span_text(s: Span) -> Seq<char> {
    let base = "Span(file "@ + decimal(s.file_id as nat) + ", "@ + decimal(s.start as nat) + ".."@
        + decimal(s.end as nat);
    if s.expansion_id > 0 {
        base + ", exp "@ + decimal(s.expansion_id as nat) + seq![')']
    } else {
        base + seq![')']
    }
}

impl Span {
    /// The readable form of the span, such as `Span(file 0, 5..10)`.
    pub fn to_string(self) -> (r: String)
        ensures
            r@ == span_text(self),
    {
        let mut out = String::new();
        push_str(&mut out, "Span(file ");
        push_decimal(&mut out, self.file_id);
        push_str(&mut out, ", ");
        push_decimal(&mut out, self.start);
        push_str(&mut out, "..");
        push_decimal(&mut out, self.end);
        if self.expansion_id > 0 {
            push_str(&mut out, ", exp ");
            push_decimal(&mut out, self.expansion_id);
        }
        push_char(&mut out, ')');
        assert(out@ =~= span_text(self));
        out
    }

    pub fn new(file_id: FileId, start: ByteOffset, end: ByteOffset) -> (s: Self)
        ensures
            s.file_id == file_id,
            s.start == start,
            s.end == end,
            s.expansion_id == 0,
    {
        Span { file_id, start, end, expansion_id: 0 }
    }

    /// The placeholder span `file 0, 0..0, expansion 0`.
    pub fn dummy() -> (s: Self)
        ensures
            s == (Span { file_id: 0, start: 0, end: 0, expansion_id: 0 }),
    {
        Span::new(0, 0, 0)
    }

    /// The same span one expansion generation later (saturating at `u32::MAX`).
    pub fn bumped_expansion(self) -> (s: Self)
        ensures
            s == bumped(self),
    {
        let expansion_id = if self.expansion_id < u32::MAX {
            self.expansion_id + 1
        } else {
            u32::MAX
        };
        Span { expansion_id, ..self }
    }

    /// The smallest span covering both spans when they share file and
    /// expansion generation; otherwise `self` unchanged.
    pub fn merge(self, other: Span) -> (s: Span)
        ensures
            s == merged(self, other),
    {
        if self.file_id != other.file_id || self.expansion_id != other.expansion_id {
            return self;
        }
        let start = if self.start <= other.start { self.start } else { other.start };
        let end = if self.end >= other.end { self.end } else { other.end };
        Span { start, end, ..self }
    }

    /// Whether `offset` lies in `[start, end)`.
    pub fn contains(self, offset: ByteOffset) -> (b: bool)
        ensures
            b == span_contains(self, offset),
    {
        offset >= self.start && offset < self.end
    }

    /// `end - start`, or 0 when `end <= start`.
    pub fn len(self) -> (n: ByteOffset)
        ensures
            n == span_len(self),
    {
        if self.end >= self.start {
            self.end - self.start
        } else {
            0
        }
    }

    pub fn is_empty(self) -> (b: bool)
        ensures
            b == span_is_empty(self),
    {
        self.end <= self.start
    }
}

/// Merging is commutative for spans of the same file and expansion.
pub proof fn lemma_merge_commutative(a: Span, b: Span)
    requires
        same_origin(a, b),
    ensures
        merged(a, b) == merged(b, a),
{
}

/// Merging a span with itself gives the span back.
pub proof fn lemma_merge_idempotent(a: Span)
    ensures
        merged(a, a) == a,
{
}

/// Merging is associative for spans of the same file and expansion.
pub proof fn lemma_merge_associative(a: Span, b: Span, c: Span)
    requires
        same_origin(a, b),
        same_origin(b, c),
    ensures
        merged(merged(a, b), c) == merged(a, merged(b, c)),
{
}

/// The merge of two spans of the same file and expansion covers every offset
/// either of them covers, and only offsets between the two.
pub proof fn lemma_merge_covers(a: Span, b: Span, x: u32)
    requires
        same_origin(a, b),
    ensures
        span_contains(a, x) || span_contains(b, x) ==> span_contains(merged(a, b), x),
        span_contains(merged(a, b), x) ==> min_u32(a.start, b.start) <= x < max_u32(a.end, b.end),
{
}

/// A span of another file or expansion generation never changes the span
/// it is merged into.
pub proof fn lemma_merge_foreign_is_identity(a: Span, b: Span)
    requires
        !same_origin(a, b),
    ensures
        merged(a, b) == a,
{
}

/// A span covers exactly the `len` offsets from its start; it is empty
/// exactly when its length is 0, and then covers no offset.
pub proof fn lemma_len_counts_contained_offsets(s: Span, x: u32)
    ensures
        span_contains(s, x) <==> s.start <= x < s.start + span_len(s),
        span_len(s) == 0 <==> span_is_empty(s),
        span_is_empty(s) ==> !span_contains(s, x),
{
}

/// Moving to the next expansion generation keeps the byte range, and the
/// result no longer merges with the span it came from.
pub proof fn lemma_bump_separates_generations(s: Span)
    requires
        s.expansion_id < u32::MAX,
    ensures
        bumped(s).file_id == s.file_id,
        bumped(s).start == s.start,
        bumped(s).end == s.end,
        bumped(s).expansion_id == s.expansion_id + 1,
        !same_origin(bumped(s), s),
        merged(bumped(s), s) == bumped(s),
{
}

} // verus!
