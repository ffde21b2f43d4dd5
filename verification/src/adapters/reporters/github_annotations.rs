//! GitHub Actions workflow-command annotations: one
//! `::severity file=…,line=…,col=…,endLine=…,endColumn=…::message` line
//! per match, with the workflow-command escaping.
use vstd::prelude::*;

use crate::domain::{FormRef, Tier};
use crate::text::{decimal, push_char, push_u32, sat_inc};

verus! {

/// The annotation severity of a tier.
pub open spec fn severity_spec(tier: Tier) -> Seq<char> {
    match tier {
        Tier::AutoRefactor => "error"@,
        Tier::ReviewFirst => "warning"@,
        Tier::Advisory => "notice"@,
    }
}

/// The annotation severity of a tier: `error`, `warning` or `notice`.
pub fn severity_for(tier: Tier) -> (r: &'static str)
    ensures
        r@ == severity_spec(tier),
{
    match tier {
        Tier::AutoRefactor => "error",
        Tier::ReviewFirst => "warning",
        Tier::Advisory => "notice",
    }
}

/// The tier's label in annotation messages.
pub open spec fn tier_label_spec(tier: Tier) -> Seq<char> {
    match tier {
        Tier::AutoRefactor => "auto_refactor"@,
        Tier::ReviewFirst => "review_first"@,
        Tier::Advisory => "advisory"@,
    }
}

/// The tier's label in annotation messages: `auto_refactor`,
/// `review_first` or `advisory`.
pub fn tier_label(tier: Tier) -> (r: &'static str)
    ensures
        r@ == tier_label_spec(tier),
{
    match tier {
        Tier::AutoRefactor => "auto_refactor",
        Tier::ReviewFirst => "review_first",
        Tier::Advisory => "advisory",
    }
}

/// The message escape of one character: `%`, CR and LF become `%25`,
/// `%0D` and `%0A`.
pub open spec fn escape_message_char(c: char) -> Seq<char> {
    if c == '%' {
        seq!['%', '2', '5']
    } else if c == '\r' {
        seq!['%', '0', 'D']
    } else if c == '\n' {
        seq!['%', '0', 'A']
    } else {
        seq![c]
    }
}

/// The property escape of one character: the message escape, and `:`
/// and `,` become `%3A` and `%2C`.
pub open spec fn escape_property_char(c: char) -> Seq<char> {
    if c == ':' {
        seq!['%', '3', 'A']
    } else if c == ',' {
        seq!['%', '2', 'C']
    } else {
        escape_message_char(c)
    }
}

/// Every character of `s` message-escaped, in order.
pub open spec fn escape_message(s: Seq<char>) -> Seq<char>
    decreases s.len(),
{
    if s.len() == 0 {
        Seq::empty()
    } else {
        escape_message(s.drop_last()) + escape_message_char(s.last())
    }
}

/// Every character of `s` property-escaped, in order.
pub open spec fn escape_property(s: Seq<char>) -> Seq<char>
    decreases s.len(),
{
    if s.len() == 0 {
        Seq::empty()
    } else {
        escape_property(s.drop_last()) + escape_property_char(s.last())
    }
}

/// Append the escape of one character.
fn push_escaped(out: &mut String, c: char, property: bool)
    ensures
        final(out)@ == old(out)@ + (if property {
            escape_property_char(c)
        } else {
            escape_message_char(c)
        }),
{
    if property && c == ':' {
        push_char(out, '%');
        push_char(out, '3');
        push_char(out, 'A');
    } else if property && c == ',' {
        push_char(out, '%');
        push_char(out, '2');
        push_char(out, 'C');
    } else if c == '%' {
        push_char(out, '%');
        push_char(out, '2');
        push_char(out, '5');
    } else if c == '\r' {
        push_char(out, '%');
        push_char(out, '0');
        push_char(out, 'D');
    } else if c == '\n' {
        push_char(out, '%');
        push_char(out, '0');
        push_char(out, 'A');
    } else {
        push_char(out, c);
    }
    assert(out@ =~= old(out)@ + (if property {
        escape_property_char(c)
    } else {
        escape_message_char(c)
    }));
}

/// Escape `s` for the message part of a workflow command.
fn escape_into(out: &mut String, s: &str, property: bool)
    ensures
        final(out)@ == old(out)@ + (if property { escape_property(s@) } else { escape_message(s@) }),
{
    let n = s.unicode_len();
    let mut i: usize = 0;
    while i < n
        invariant
            i <= n,
            n == s@.len(),
            out@ == old(out)@ + (if property {
                escape_property(s@.take(i as int))
            } else {
                escape_message(s@.take(i as int))
            }),
        decreases n - i,
    {
        let c = s.get_char(i);
        push_escaped(out, c, property);
        assert(s@.take(i + 1).drop_last() =~= s@.take(i as int));
        assert(s@.take(i + 1).last() == c);
        i = i + 1;
    }
    assert(s@.take(n as int) =~= s@);
}

/// Escape a message for a workflow command: `%`, CR and LF.
pub fn gha_escape_message(s: &str) -> (r: String)
    ensures
        r@ == escape_message(s@),
{
    let mut out = String::new();
    escape_into(&mut out, s, false);
    assert(out@ =~= escape_message(s@));
    out
}

/// Escape a property value for a workflow command: the message escapes
/// plus `:` and `,`.
pub fn gha_escape_property(s: &str) -> (r: String)
    ensures
        r@ == escape_property(s@),
{
    let mut out = String::new();
    escape_into(&mut out, s, true);
    assert(out@ =~= escape_property(s@));
    out
}

/// The annotation message: `Duplicate of file:line (score=S, tier=T)`
/// when the match has a second form, `Duplicate cluster (score=S,
/// tier=T)` otherwise; `S` is the score as rendered by the caller.
pub open spec fn message_spec(score: Seq<char>, tier: Tier, other: Option<FormRef>) -> Seq<char> {
    match other {
        Some(o) => "Duplicate of "@ + o.file@ + ":"@ + decimal(o.span.start.line as nat)
            + " (score="@ + score + ", tier="@ + tier_label_spec(tier) + ")"@,
        None => "Duplicate cluster (score="@ + score + ", tier="@ + tier_label_spec(tier) + ")"@,
    }
}

/// The annotation message for a match of the given tier whose score
/// renders as `score` (two decimals), naming its second form when it
/// has one.
pub fn format_message(score: &str, tier: Tier, other: Option<&FormRef>) -> (r: String)
    ensures
        r@ == message_spec(score@, tier, match other {
            Some(o) => Some(*o),
            None => None,
        }),
{
    let label = tier_label(tier);
    let mut out = String::new();
    match other {
        Some(o) => {
            out.append("Duplicate of ");
            out.append(o.file.as_str());
            push_char(&mut out, ':');
            push_u32(&mut out, o.span.start.line);
            out.append(" (score=");
        },
        None => {
            out.append("Duplicate cluster (score=");
        },
    }
    out.append(score);
    out.append(", tier=");
    out.append(label);
    push_char(&mut out, ')');
    proof {
        reveal_strlit(":");
        reveal_strlit(")");
    }
    assert(out@ =~= message_spec(score@, tier, match other {
        Some(o) => Some(*o),
        None => None,
    }));
    out
}

/// The annotation line for a match whose first form is `primary`:
/// severity from the tier, the primary form's file (property-escaped),
/// its one-based start and end positions, and the escaped message.
pub open spec fn annotation_spec(
    primary: FormRef,
    other: Option<FormRef>,
    tier: Tier,
    score: Seq<char>,
) -> Seq<char> {
    "::"@ + severity_spec(tier) + " file="@ + escape_property(primary.file@) + ",line="@ + decimal(
        primary.span.start.line as nat,
    ) + ",col="@ + decimal(sat_inc(primary.span.start.column) as nat) + ",endLine="@ + decimal(
        primary.span.end.line as nat,
    ) + ",endColumn="@ + decimal(sat_inc(primary.span.end.column) as nat) + "::"@
        + escape_message(message_spec(score, tier, other))
}

/// Render one match's annotation line (without the line break), given
/// its first form, its second form if any, its tier and its score as
/// rendered with two decimals.
pub fn render_annotation(primary: &FormRef, other: Option<&FormRef>, tier: Tier, score: &str) -> (r:
    String)
    ensures
        r@ == annotation_spec(*primary, match other {
            Some(o) => Some(*o),
            None => None,
        }, tier, score@),
{
    let message_raw = format_message(score, tier, other);
    let mut out = String::new();
    out.append("::");
    out.append(severity_for(tier));
    out.append(" file=");
    escape_into(&mut out, primary.file.as_str(), true);
    out.append(",line=");
    push_u32(&mut out, primary.span.start.line);
    out.append(",col=");
    push_u32(&mut out, primary.span.start.column.saturating_add(1));
    out.append(",endLine=");
    push_u32(&mut out, primary.span.end.line);
    out.append(",endColumn=");
    push_u32(&mut out, primary.span.end.column.saturating_add(1));
    out.append("::");
    escape_into(&mut out, message_raw.as_str(), false);
    assert(out@ =~= annotation_spec(*primary, match other {
        Some(o) => Some(*o),
        None => None,
    }, tier, score@));
    out
}

} // verus!
