//! Pure helpers of the run loop: the threshold-mode wire label and the
//! ISO-8601 UTC rendering of a Unix time.
use vstd::prelude::*;

use super::{AdapterMeta, ThresholdMode};
use super::adapter_meta::strs_view;
use crate::text::{decimal, push_char, push_decimal};

verus! {

/// The wire label of a threshold mode.
pub open spec fn threshold_mode_label_spec(mode: ThresholdMode) -> Seq<char> {
    match mode {
        ThresholdMode::Strict => "strict"@,
        ThresholdMode::Default => "default"@,
        ThresholdMode::Lenient => "lenient"@,
    }
}

/// The wire label of a threshold mode: `strict`, `default` or
/// `lenient`.
pub fn threshold_mode_label(mode: ThresholdMode) -> (r: &'static str)
    ensures
        r@ == threshold_mode_label_spec(mode),
{
    match mode {
        ThresholdMode::Strict => "strict",
        ThresholdMode::Default => "default",
        ThresholdMode::Lenient => "lenient",
    }
}

/// `s` left-padded with `'0'` to at least `w` characters.
pub open spec fn zero_pad(s: Seq<char>, w: nat) -> Seq<char> {
    if s.len() >= w {
        s
    } else {
        Seq::new((w - s.len()) as nat, |i: int| '0') + s
    }
}

/// The proleptic-Gregorian civil date `(year, month, day)` of the day
/// `days` after 1970-01-01, by the days-to-civil conversion over
/// 400-year eras that start on a March 1st.
pub open spec fn civil_from_days(days: nat) -> (nat, nat, nat) {
    let z = days + 719_468;
    let era = z / 146_097;
    let doe = z - era * 146_097;
    let yoe = (doe - doe / 1_460 + doe / 36_524 - doe / 146_096) / 365;
    let y = yoe + era * 400;
    let doy = doe - (365 * yoe + yoe / 4 - yoe / 100);
    let mp = (5 * doy + 2) / 153;
    let d = doy - (153 * mp + 2) / 5 + 1;
    let m = if mp < 10 { mp + 3 } else { mp - 9 };
    let year = if m <= 2 { y + 1 } else { y };
    (year as nat, m as nat, d as nat)
}

/// `YYYY-MM-DDTHH:MM:SSZ` for the Unix time `secs` (UTC): the civil date
/// of its day and the time of day, every field zero-padded (the year to
/// at least four digits, the others to two).
pub open spec fn iso8601(secs: nat) -> Seq<char> {
    let date = civil_from_days(secs / 86_400);
    let tod = secs % 86_400;
    zero_pad(decimal(date.0), 4) + "-"@ + zero_pad(decimal(date.1), 2) + "-"@ + zero_pad(
        decimal(date.2),
        2,
    ) + "T"@ + zero_pad(decimal(tod / 3_600), 2) + ":"@ + zero_pad(decimal((tod % 3_600) / 60), 2)
        + ":"@ + zero_pad(decimal(tod % 60), 2) + "Z"@
}

/// Append `n` in decimal, left-padded with zeros to `w` digits.
fn push_padded(out: &mut String, n: u64, w: usize)
    ensures
        final(out)@ == old(out)@ + zero_pad(decimal(n as nat), w as nat),
{
    let mut digits = String::new();
    push_decimal(&mut digits, n);
    assert(digits@ =~= decimal(n as nat));
    let len = digits.as_str().unicode_len();
    let mut k: usize = len;
    while k < w
        invariant
            len <= k,
            k <= w || len > w,
            len >= w ==> k == len,
            len == decimal(n as nat).len(),
            out@ == old(out)@ + Seq::new((k - len) as nat, |i: int| '0'),
        decreases w - k,
    {
        let ghost prev = out@;
        push_char(out, '0');
        assert(Seq::new((k + 1 - len) as nat, |i: int| '0') =~= Seq::new((k - len) as nat, |i: int| '0').push('0'));
        assert(out@ =~= old(out)@ + Seq::new((k + 1 - len) as nat, |i: int| '0'));
        k = k + 1;
    }
    let ghost before = out@;
    out.append(digits.as_str());
    proof {
        if len >= w {
            assert(Seq::new((k - len) as nat, |i: int| '0') =~= Seq::<char>::empty());
            assert(out@ =~= old(out)@ + zero_pad(decimal(n as nat), w as nat));
        } else {
            assert(k == w);
            assert(out@ =~= old(out)@ + zero_pad(decimal(n as nat), w as nat));
        }
    }
}

/// Append one literal character.
fn push_lit(out: &mut String, c: char)
    ensures
        final(out)@ == old(out)@.push(c),
{
    push_char(out, c);
}

/// The day-of-era arithmetic of [`civil_from_days`] stays within its
/// ranges: the year of the era is below 400, the day of the year it
/// leaves is below 366, and the month index below 12.
proof fn lemma_civil_ranges(doe: int)
    requires
        0 <= doe < 146_097,
    ensures
        ({
            let yoe = (doe - doe / 1_460 + doe / 36_524 - doe / 146_096) / 365;
            &&& 0 <= yoe < 400
            &&& 365 * yoe + yoe / 4 - yoe / 100 <= doe
            &&& doe - (365 * yoe + yoe / 4 - yoe / 100) < 366
        }),
{
    let yoe = (doe - doe / 1_460 + doe / 36_524 - doe / 146_096) / 365;
    assert(0 <= yoe < 400);
    assert(365 * yoe + yoe / 4 - yoe / 100 <= doe) by (nonlinear_arith)
        requires
            0 <= doe < 146_097,
            yoe == (doe - doe / 1_460 + doe / 36_524 - doe / 146_096) / 365,
    ;
    assert(doe - (365 * yoe + yoe / 4 - yoe / 100) < 366) by (nonlinear_arith)
        requires
            0 <= doe < 146_097,
            yoe == (doe - doe / 1_460 + doe / 36_524 - doe / 146_096) / 365,
    ;
}

/// Render a Unix time as ISO-8601 UTC, `YYYY-MM-DDTHH:MM:SSZ`.
pub fn format_unix_seconds_iso8601(secs: u64) -> (r: String)
    ensures
        r@ == iso8601(secs as nat),
{
    let day_secs: u64 = 86_400;
    let total_days = secs / day_secs;
    let time_of_day = secs % day_secs;
    let hours = time_of_day / 3_600;
    let minutes = (time_of_day % 3_600) / 60;
    let seconds = time_of_day % 60;
    assert(total_days <= u64::MAX / 86_400);
    let z = total_days + 719_468;
    let era = z / 146_097;
    let doe = z - era * 146_097;
    assert(doe < 146_097);
    proof {
        lemma_civil_ranges(doe as int);
    }
    let yoe = (doe - doe / 1_460 + doe / 36_524 - doe / 146_096) / 365;
    let y = yoe + era * 400;
    let doy = doe - (365 * yoe + yoe / 4 - yoe / 100);
    let mp = (5 * doy + 2) / 153;
    let d = doy - (153 * mp + 2) / 5 + 1;
    let m = if mp < 10 { mp + 3 } else { mp - 9 };
    let year = if m <= 2 { y + 1 } else { y };
    assert((year as nat, m as nat, d as nat) == civil_from_days(total_days as nat));
    let mut out = String::new();
    push_padded(&mut out, year, 4);
    push_lit(&mut out, '-');
    push_padded(&mut out, m, 2);
    push_lit(&mut out, '-');
    push_padded(&mut out, d, 2);
    push_lit(&mut out, 'T');
    push_padded(&mut out, hours, 2);
    push_lit(&mut out, ':');
    push_padded(&mut out, minutes, 2);
    push_lit(&mut out, ':');
    push_padded(&mut out, seconds, 2);
    push_lit(&mut out, 'Z');
    proof {
        reveal_strlit("-");
        reveal_strlit("T");
        reveal_strlit(":");
        reveal_strlit("Z");
    }
    assert(out@ =~= iso8601(secs as nat));
    out
}

/// The current wall-clock time as whole seconds since the Unix epoch
/// (`SystemTime::now`, zero when the clock reads before the epoch).
/// Nothing is stated of the result: it is the time.
#[verifier::external_body]
fn unix_seconds_now() -> u64 {
    std::time::SystemTime::now().duration_since(std::time::UNIX_EPOCH).map_or(0, |d| d.as_secs())
}

/// The current time as ISO-8601 UTC, `YYYY-MM-DDTHH:MM:SSZ`.
pub fn current_timestamp() -> (r: String)
    ensures
        exists|secs: u64| r@ == iso8601(secs as nat),
{
    let secs = unix_seconds_now();
    format_unix_seconds_iso8601(secs)
}

/// The value a knob takes under the precedence cascade: the command
/// line's when given, else the configuration's when set, else the
/// compiled-in fallback.
pub open spec fn cascade_spec<T>(cli: Option<T>, configured: Option<T>, fallback: T) -> T {
    match cli {
        Some(v) => v,
        None => match configured {
            Some(v) => v,
            None => fallback,
        },
    }
}

/// Resolve one knob by precedence: command line, then configuration,
/// then the compiled-in fallback.
pub fn cascade<T>(cli: Option<T>, configured: Option<T>, fallback: T) -> (r: T)
    ensures
        r == cascade_spec(cli, configured, fallback),
{
    match cli {
        Some(v) => v,
        None => match configured {
            Some(v) => v,
            None => fallback,
        },
    }
}

/// Whether ignore files are bypassed: the command-line flag forces it;
/// otherwise the configuration decides, defaulting to no.
pub fn resolve_include_ignored(cli_flag: bool, configured: Option<bool>) -> (r: bool)
    ensures
        r == (cli_flag || configured == Some(true)),
{
    if cli_flag {
        true
    } else {
        match configured {
            Some(b) => b,
            None => false,
        }
    }
}

/// The extension allowlist: the configured one when set (even when
/// empty), else the adapter's own extensions.
pub fn resolve_extensions(configured: Option<Vec<String>>, meta: &AdapterMeta) -> (r: Vec<String>)
    ensures
        match configured {
            Some(e) => r@ == e@,
            None => r@.map_values(|s: String| s@) == strs_view(meta.extensions@),
        },
{
    match configured {
        Some(e) => e,
        None => meta.extensions_owned(),
    }
}

} // verus!
