//! Comment blocks, file names and the header of the annotated example
//! configuration.
use vstd::prelude::*;

use crate::cli::AdapterMeta;
use crate::text::push_char;

verus! {

/// `s` without one trailing carriage return.
pub open spec fn strip_cr(s: Seq<char>) -> Seq<char> {
    if s.len() > 0 && s.last() == '\r' {
        s.drop_last()
    } else {
        s
    }
}

/// The lines of `cur + s`, where `cur` is the unfinished line read so
/// far: each line feed ends a line (a carriage return before it is
/// dropped), and what follows the last line feed is a line only when
/// it is not empty.
pub open spec fn lines_from(s: Seq<char>, cur: Seq<char>) -> Seq<Seq<char>>
    decreases s.len(),
{
    if s.len() == 0 {
        if cur.len() == 0 {
            Seq::empty()
        } else {
            seq![cur]
        }
    } else if s[0] == '\n' {
        seq![strip_cr(cur)] + lines_from(s.drop_first(), Seq::empty())
    } else {
        lines_from(s.drop_first(), cur.push(s[0]))
    }
}

/// The lines of `s` as `str::lines` gives them.
pub open spec fn lines_of(s: Seq<char>) -> Seq<Seq<char>> {
    lines_from(s, Seq::empty())
}

/// The comment line of one documentation line: `#` for an empty line,
/// else `# ` and the line; each followed by a line feed.
pub open spec fn comment_line(l: Seq<char>) -> Seq<char> {
    if l.len() == 0 {
        seq!['#', '\n']
    } else {
        seq!['#', ' '] + l + seq!['\n']
    }
}

/// The comment lines of a sequence of lines, concatenated.
pub open spec fn comment_lines(ls: Seq<Seq<char>>) -> Seq<char>
    decreases ls.len(),
{
    if ls.len() == 0 {
        Seq::empty()
    } else {
        comment_line(ls[0]) + comment_lines(ls.drop_first())
    }
}

/// Append the comment line of `docs[start..end]`.
fn push_comment_line(out: &mut String, docs: &str, start: usize, end: usize)
    requires
        start <= end <= docs@.len(),
    ensures
        final(out)@ == old(out)@ + comment_line(docs@.subrange(start as int, end as int)),
{
    if end == start {
        push_char(out, '#');
        push_char(out, '\n');
    } else {
        push_char(out, '#');
        push_char(out, ' ');
        let mut j = start;
        while j < end
            invariant
                start <= j <= end,
                end <= docs@.len(),
                out@ == old(out)@ + seq!['#', ' '] + docs@.subrange(start as int, j as int),
            decreases end - j,
        {
            let c = docs.get_char(j);
            push_char(out, c);
            assert(docs@.subrange(start as int, j + 1) =~= docs@.subrange(start as int, j as int).push(c));
            assert(out@ =~= old(out)@ + seq!['#', ' '] + docs@.subrange(start as int, j + 1));
            j = j + 1;
        }
        push_char(out, '\n');
    }
    assert(out@ =~= old(out)@ + comment_line(docs@.subrange(start as int, end as int)));
}

/// A multi-line documentation string as a TOML comment block: each
/// non-empty line becomes `# line`, each empty line `#`.
pub fn comment_block(docs: &str) -> (r: String)
    ensures
        r@ == comment_lines(lines_of(docs@)),
{
    let n = docs.unicode_len();
    let mut out = String::new();
    let mut start: usize = 0;
    let mut i: usize = 0;
    assert(docs@.subrange(0, n as int) =~= docs@);
    assert(docs@.subrange(0, 0) =~= Seq::<char>::empty());
    while i < n
        invariant
            start <= i <= n,
            n == docs@.len(),
            out@ + comment_lines(
                lines_from(docs@.subrange(i as int, n as int), docs@.subrange(start as int, i as int)),
            ) == comment_lines(lines_of(docs@)),
        decreases n - i,
    {
        let ghost rest = docs@.subrange(i as int, n as int);
        let ghost cur = docs@.subrange(start as int, i as int);
        assert(rest[0] == docs@[i as int]);
        assert(rest.drop_first() =~= docs@.subrange(i + 1, n as int));
        let c = docs.get_char(i);
        if c == '\n' {
            let mut end = i;
            if end > start && docs.get_char(end - 1) == '\r' {
                end = end - 1;
            }
            assert(docs@.subrange(start as int, end as int) =~= strip_cr(cur));
            let ghost before = out@;
            push_comment_line(&mut out, docs, start, end);
            proof {
                let tail = lines_from(docs@.subrange(i + 1, n as int), Seq::empty());
                let ls = seq![strip_cr(cur)] + tail;
                assert(ls[0] == strip_cr(cur));
                assert(ls.drop_first() =~= tail);
                assert(docs@.subrange(i + 1, i + 1) =~= Seq::<char>::empty());
                assert(out@ + comment_lines(tail) =~= before + (comment_line(strip_cr(cur))
                    + comment_lines(tail)));
            }
            start = i + 1;
        } else {
            assert(cur.push(c) =~= docs@.subrange(start as int, i + 1));
        }
        i = i + 1;
    }
    let ghost cur = docs@.subrange(start as int, n as int);
    assert(docs@.subrange(n as int, n as int) =~= Seq::<char>::empty());
    if start < n {
        let ghost before = out@;
        push_comment_line(&mut out, docs, start, n);
        proof {
            let ls = seq![cur];
            assert(ls[0] == cur);
            assert(ls.drop_first() =~= Seq::<Seq<char>>::empty());
            assert(comment_lines(ls.drop_first()) =~= Seq::<char>::empty());
            assert(comment_lines(ls) =~= comment_line(cur));
        }
    } else {
        assert(out@ + Seq::<char>::empty() =~= out@);
    }
    out
}


// ---- file names and the header ----

/// The example configuration file's name for an adapter:
/// `{tool_name}.example.toml`.
pub fn example_file_name(meta: &AdapterMeta) -> (r: String)
    ensures
        r@ == meta.tool_name@ + ".example.toml"@,
{
    let mut out = meta.tool_name.to_owned();
    out.append(".example.toml");
    out
}

/// The JSON schema file's name for an adapter: `{tool_name}.schema.json`.
pub fn schema_file_name(meta: &AdapterMeta) -> (r: String)
    ensures
        r@ == meta.tool_name@ + ".schema.json"@,
{
    let mut out = meta.tool_name.to_owned();
    out.append(".schema.json");
    out
}

/// The header of the annotated example configuration, for the example
/// file `file`, the tool `tool` and the configuration file `config`.
pub open spec fn header_comment_spec(file: Seq<char>, tool: Seq<char>, config: Seq<char>) -> Seq<
    char,
> {
    "# "@ + file + " — exhaustive annotated reference for the "@ + tool
        + " config schema.\n#\n# Generated by `"@ + tool
        + " init` from the schema's doc comments. To\n# regenerate after a schema change:\n#\n#     "@
        + tool + " init --force\n#\n# Distinct from the minimal `"@ + config + "` that "@ + tool
        + " actually\n# loads: this file is the option reference, not user config.\n#\n\n"@
}

/// The header of an adapter's annotated example configuration: what the
/// file is, how to regenerate it, and that it is not the configuration
/// the tool loads.
pub fn header_comment(meta: &AdapterMeta) -> (r: String)
    ensures
        r@ == header_comment_spec(
            meta.tool_name@ + ".example.toml"@,
            meta.tool_name@,
            meta.config_file_name@,
        ),
{
    let file = example_file_name(meta);
    let tool = meta.tool_name;
    let mut out = "# ".to_owned();
    out.append(file.as_str());
    out.append(" — exhaustive annotated reference for the ");
    out.append(tool);
    out.append(" config schema.\n#\n# Generated by `");
    out.append(tool);
    out.append(" init` from the schema's doc comments. To\n# regenerate after a schema change:\n#\n#     ");
    out.append(tool);
    out.append(" init --force\n#\n# Distinct from the minimal `");
    out.append(meta.config_file_name);
    out.append("` that ");
    out.append(tool);
    out.append(" actually\n# loads: this file is the option reference, not user config.\n#\n\n");
    out
}

} // verus!
