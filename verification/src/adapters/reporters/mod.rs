//! Report helpers shared by every reporter.
use vstd::prelude::*;

pub mod github_annotations;
pub mod json;

use crate::domain::FormRef;
use crate::text::{decimal, push_char, push_u32, sat_inc};

verus! {

/// `file:line:column` of a form's start, the column one-based
/// (saturating at `u32::MAX`).
pub open spec fn form_ref_text(form: FormRef) -> Seq<char> {
    form.file@ + ":"@ + decimal(form.span.start.line as nat) + ":"@ + decimal(
        sat_inc(form.span.start.column) as nat,
    )
}

/// Render a form reference as `file:line:column`, the column one-based.
pub fn format_form_ref(form: &FormRef) -> (r: String)
    ensures
        r@ == form_ref_text(*form),
{
    let mut out = form.file.to_string();
    push_char(&mut out, ':');
    push_u32(&mut out, form.span.start.line);
    push_char(&mut out, ':');
    push_u32(&mut out, form.span.start.column.saturating_add(1));
    proof {
        reveal_strlit(":");
    }
    assert(out@ =~= form_ref_text(*form));
    out
}

} // verus!
