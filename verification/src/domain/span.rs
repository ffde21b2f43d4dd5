//! Source-position coordinates — [`LineColumn`] and [`Span`].
//!
//! Lines are 1-indexed, columns 0-indexed, and a [`Span`] is
//! end-inclusive: a one-character token at line 1, column 0 has
//! `start == end == LineColumn { line: 1, column: 0 }`.
use vstd::prelude::*;

use crate::text::{decimal, push_decimal};

verus! {

/// A 1-indexed line / 0-indexed column position in a source file.
#[derive(Debug, Clone, Copy, PartialEq, Eq, Structural, PartialOrd, Ord, Hash)]
pub struct LineColumn {
    /// 1-indexed line number.
    pub line: u32,
    /// 0-indexed column number.
    pub column: u32,
}

/// Lexicographic `(line, column)` order: `a` does not come after `b`.
pub open spec fn position_le(a: LineColumn, b: LineColumn) -> bool {
    a.line < b.line || (a.line == b.line && a.column <= b.column)
}

impl LineColumn {
    /// Construct a [`LineColumn`] from a 1-indexed line and 0-indexed
    /// column.
    pub fn new(line: u32, column: u32) -> (r: Self)
        ensures
            r.line == line,
            r.column == column,
    {
        Self { line, column }
    }

    /// Whether `self` does not come after `other` in `(line, column)`
    /// order.
    pub fn is_at_or_before(&self, other: &LineColumn) -> (r: bool)
        ensures
            r == position_le(*self, *other),
    {
        self.line < other.line || (self.line == other.line && self.column <= other.column)
    }
}

/// An end-inclusive source range bounded by two [`LineColumn`] values;
/// `start` never comes after `end` when built by [`Span::try_new`].
#[derive(Debug, Clone, Copy, PartialEq, Eq, Structural, PartialOrd, Ord, Hash)]
pub struct Span {
    /// Start position, inclusive.
    pub start: LineColumn,
    /// End position, inclusive.
    pub end: LineColumn,
}

/// Errors produced when constructing a [`Span`].
#[derive(Debug, Clone, Copy, PartialEq, Eq, Structural)]
#[non_exhaustive]
pub enum SpanError {
    /// `start > end` under the lexicographic ordering on `(line, column)`.
    InvertedRange {
        /// The offending start position.
        start: LineColumn,
        /// The offending end position.
        end: LineColumn,
    },
}

impl Span {
    /// Construct a [`Span`] after validating that `start <= end` under
    /// the `(line, column)` order; an inverted range is refused with
    /// [`SpanError::InvertedRange`] carrying both positions.
    pub fn try_new(start: LineColumn, end: LineColumn) -> (r: Result<Self, SpanError>)
        ensures
            position_le(start, end) ==> r == Ok::<Span, SpanError>(Span { start, end }),
            !position_le(start, end) ==> r == Err::<Span, SpanError>(
                SpanError::InvertedRange { start, end },
            ),
    {
        if !start.is_at_or_before(&end) {
            return Err(SpanError::InvertedRange { start, end });
        }
        Ok(Self { start, end })
    }
}

/// The `Debug` rendering of a position:
/// `LineColumn { line: L, column: C }`.
pub open spec fn line_column_debug_text(p: LineColumn) -> Seq<char> {
    "LineColumn { line: "@ + decimal(p.line as nat) + ", column: "@ + decimal(p.column as nat)
        + " }"@
}

/// The human-readable message of a [`SpanError`].
pub open spec fn span_error_text(e: SpanError) -> Seq<char> {
    match e {
        SpanError::InvertedRange { start, end } => "span start "@ + line_column_debug_text(start)
            + " is greater than end "@ + line_column_debug_text(end)
            + " (Span is end-inclusive; start must be <= end)"@,
    }
}

fn push_line_column_debug(out: &mut String, p: LineColumn)
    ensures
        final(out)@ == old(out)@ + line_column_debug_text(p),
{
    out.append("LineColumn { line: ");
    push_decimal(out, p.line as u64);
    out.append(", column: ");
    push_decimal(out, p.column as u64);
    out.append(" }");
    proof {
        reveal_strlit("LineColumn { line: ");
        reveal_strlit(", column: ");
        reveal_strlit(" }");
    }
    assert(out@ =~= old(out)@ + line_column_debug_text(p));
}

impl SpanError {
    /// The error message: names both positions and reminds that a span
    /// is end-inclusive.
    pub fn to_string(&self) -> (r: String)
        ensures
            r@ == span_error_text(*self),
    {
        let mut out = String::new();
        match self {
            SpanError::InvertedRange { start, end } => {
                out.append("span start ");
                push_line_column_debug(&mut out, *start);
                out.append(" is greater than end ");
                push_line_column_debug(&mut out, *end);
                out.append(" (Span is end-inclusive; start must be <= end)");
                proof {
                    reveal_strlit("span start ");
                    reveal_strlit(" is greater than end ");
                    reveal_strlit(" (Span is end-inclusive; start must be <= end)");
                }
                assert(out@ =~= span_error_text(*self));
            },
        }
        out
    }
}

} // verus!
