//! Builders of form references for tests.
use vstd::prelude::*;

use crate::domain::span::position_le;
use crate::domain::{FilePath, FormKind, FormRef, LineColumn, Span};

verus! {

/// A production form reference to `path` from line `start_line`,
/// column 0, to line `end_line`, column `end_col`.
pub fn make_form_ref(path: &str, start_line: u32, end_line: u32, end_col: u32) -> (r: FormRef)
    requires
        start_line <= end_line,
    ensures
        r.file@ == path@,
        r.span == (Span {
            start: LineColumn { line: start_line, column: 0 },
            end: LineColumn { line: end_line, column: end_col },
        }),
        r.kind == FormKind::Production,
{
    let start = LineColumn::new(start_line, 0);
    let end = LineColumn::new(end_line, end_col);
    assert(position_le(start, end));
    let span = match Span::try_new(start, end) {
        Ok(s) => s,
        Err(_) => Span { start, end },
    };
    FormRef::new(FilePath::new(path), span, FormKind::Production)
}

/// `src/foo.rs`, lines 1 to 3, ending at column 12.
pub fn make_form_ref_default() -> (r: FormRef)
    ensures
        r.span.start.line == 1 && r.span.end.line == 3 && r.span.end.column == 12,
        r.span.start.column == 0,
        r.kind == FormKind::Production,
{
    make_form_ref("src/foo.rs", 1, 3, 12)
}

/// `path`, lines `line` to `line + 2`, ending at column 12.
pub fn make_form_ref_at(path: &str, line: u32) -> (r: FormRef)
    requires
        line <= u32::MAX - 2,
    ensures
        r.file@ == path@,
        r.span.start.line == line && r.span.end.line == line + 2 && r.span.end.column == 12,
        r.span.start.column == 0,
        r.kind == FormKind::Production,
{
    make_form_ref(path, line, line + 2, 12)
}

/// `path`, lines `start_line` to `end_line`, ending at column 12.
pub fn make_form_ref_lines(path: &str, start_line: u32, end_line: u32) -> (r: FormRef)
    requires
        start_line <= end_line,
    ensures
        r.file@ == path@,
        r.span.start.line == start_line && r.span.end.line == end_line,
        r.span.start.column == 0 && r.span.end.column == 12,
        r.kind == FormKind::Production,
{
    make_form_ref(path, start_line, end_line, 12)
}

/// `path`, lines `line` to `line + 2`, ending at column 5.
pub fn make_form_ref_col5(path: &str, line: u32) -> (r: FormRef)
    requires
        line <= u32::MAX - 2,
    ensures
        r.file@ == path@,
        r.span.start.line == line && r.span.end.line == line + 2 && r.span.end.column == 5,
        r.span.start.column == 0,
        r.kind == FormKind::Production,
{
    make_form_ref(path, line, line + 2, 5)
}

/// Line 1, column 0 to line 3, column 12.
pub fn make_span() -> (r: Span)
    ensures
        r == (Span {
            start: LineColumn { line: 1, column: 0 },
            end: LineColumn { line: 3, column: 12 },
        }),
{
    let start = LineColumn::new(1, 0);
    let end = LineColumn::new(3, 12);
    match Span::try_new(start, end) {
        Ok(s) => s,
        Err(_) => Span { start, end },
    }
}

} // verus!
