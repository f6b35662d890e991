//! The block-macro preprocessor: a custom multi-line grammar recognized over
//! raw lines, before general tree parsing.
//!
//! An opening marker stands on its own line, `{% name key: value ... %}`:
//! the marker braces around space-separated tokens, a macro name first (one
//! that does not begin with `end`, so a closing marker never opens a
//! capture), then key–value pairs, each key ending in a colon. Every
//! following line is appended verbatim to the body until the matching
//! closing marker `{% endname %}` is met, markers being recognized on the
//! trimmed line; no nesting is recognized, an intervening opening
//! marker is ordinary body content, and a capture still open at the end of
//! input completes there. A line holding the marker characters without
//! matching the opening grammar is ordinary content.

use vstd::prelude::*;
use crate::text::{
    chars_range, ends_with, lemma_raw_split_len, nonempty_parts, occurs, push_char, raw_split,
    spec_ends_with, spec_starts_with, spec_trim, split_raw, starts_with, str_eq, trim,
    drop_empty, contains_str, all_digits, check_all_digits,
};
use crate::typ::{spec_typst_escape, typst_escape};

verus! {

/// A raw block-macro capture: name, ordered key–value arguments, and the
/// untranslated body text.
pub struct BlockMacro {
    pub name: String,
    pub args: Vec<(String, String)>,
    pub body: String,
}

/// The spec-level shape of an argument pair.
pub open spec fn args_view(v: Seq<(String, String)>) -> Seq<(Seq<char>, Seq<char>)> {
    v.map_values(|p: (String, String)| (p.0@, p.1@))
}

/// A line shaped like a marker: the braces around at least nothing.
pub open spec fn open_shape(l: Seq<char>) -> bool {
    l.len() >= 4 && spec_starts_with(l, "{%"@) && spec_ends_with(l, "%}"@)
}

/// What stands between the marker braces.
pub open spec fn brace_inner(l: Seq<char>) -> Seq<char> {
    l.subrange(2, l.len() - 2)
}

/// The space-separated tokens between the braces.
pub open spec fn line_tokens(l: Seq<char>) -> Seq<Seq<char>> {
    nonempty_parts(raw_split(brace_inner(l), ' '))
}

/// A token usable as an argument key: something before a final colon.
pub open spec fn is_key_token(t: Seq<char>) -> bool {
    t.len() >= 2 && t.last() == ':'
}

/// The tokens after the name come in key–value pairs.
pub open spec fn pairs_ok(toks: Seq<Seq<char>>) -> bool
    decreases toks.len(),
{
    if toks.len() == 0 {
        true
    } else if toks.len() == 1 {
        false
    } else {
        is_key_token(toks[0]) && pairs_ok(toks.skip(2))
    }
}

/// The argument list those tokens carry: each key with its colon dropped.
pub open spec fn make_pairs(toks: Seq<Seq<char>>) -> Seq<(Seq<char>, Seq<char>)>
    decreases toks.len(),
{
    if toks.len() < 2 {
        Seq::<(Seq<char>, Seq<char>)>::empty()
    } else {
        seq![(toks[0].drop_last(), toks[1])] + make_pairs(toks.skip(2))
    }
}

/// What an opening marker line declares: the macro name and its arguments,
/// or nothing where the line does not fit the grammar.
pub open spec fn spec_open(l: Seq<char>) -> Option<(Seq<char>, Seq<(Seq<char>, Seq<char>)>)> {
    if open_shape(l) {
        let toks = line_tokens(l);
        if toks.len() >= 1 && !spec_starts_with(toks[0], "end"@) && pairs_ok(toks.drop_first()) {
            Some((toks[0], make_pairs(toks.drop_first())))
        } else {
            None
        }
    } else {
        None
    }
}

/// Whether a line closes the capture of the macro called `name`.
pub open spec fn spec_is_end(l: Seq<char>, name: Seq<char>) -> bool {
    open_shape(l) && line_tokens(l) == seq!["end"@ + name]
}

/// The body collected from line `i` on, each line taken verbatim and given
/// back its newline, up to the closing marker or the end of input; and how
/// many lines of the input are consumed in all, the closing marker included.
/// Only the marker recognition looks at a trimmed form of a line.
pub open spec fn spec_body_scan(lines: Seq<Seq<char>>, i: int, name: Seq<char>) -> (
    Seq<char>,
    int,
)
    decreases lines.len() - i,
{
    if i < 0 || i >= lines.len() {
        (Seq::<char>::empty(), lines.len() as int)
    } else if spec_is_end(spec_trim(lines[i]), name) {
        (Seq::<char>::empty(), i + 1)
    } else {
        let rest = spec_body_scan(lines, i + 1, name);
        (lines[i] + "\n"@ + rest.0, rest.1)
    }
}

/// What scanning a run of raw lines yields: nothing unless the first line is
/// an opening marker; else the capture's name, arguments, body and the
/// number of lines consumed.
pub open spec fn spec_scan(lines: Seq<Seq<char>>) -> Option<
    (Seq<char>, Seq<(Seq<char>, Seq<char>)>, Seq<char>, int),
> {
    if lines.len() == 0 {
        None
    } else {
        let t0 = spec_trim(lines[0]);
        if !occurs(t0, "{%"@) {
            None
        } else {
            match spec_open(t0) {
                None => None,
                Some((name, args)) => {
                    let bs = spec_body_scan(lines, 1, name);
                    Some((name, args, bs.0, bs.1))
                },
            }
        }
    }
}

/// The tokens between the marker braces of `t`, where `t` has the marker
/// shape at all.
fn brace_tokens(t: &str) -> (r: Option<Vec<String>>)
    ensures
        (r is Some) == open_shape(t@),
        r matches Some(v) ==> v.deep_view() == line_tokens(t@),
{
    let n = t.unicode_len();
    if n < 4 {
        return None;
    }
    if !starts_with(t, "{%") || !ends_with(t, "%}") {
        return None;
    }
    let inner = chars_range(t, 2, n - 2);
    let raw = split_raw(inner.as_str(), ' ');
    let toks = drop_empty(raw);
    Some(toks)
}

/// Reads an opening marker line (already trimmed). A line that does not fit
/// the grammar yields nothing and stays ordinary content.
pub fn parse_block(line: &str) -> (r: Option<BlockMacro>)
    ensures
        (r is Some) == (spec_open(line@) is Some),
        r matches Some(m) ==> {
            &&& spec_open(line@) matches Some(o)
            &&& m.name@ == o.0
            &&& args_view(m.args@) == o.1
            &&& m.body@.len() == 0
        },
{
    let toks = match brace_tokens(line) {
        None => {
            return None;
        },
        Some(v) => v,
    };
    if toks.len() == 0 {
        return None;
    }
    if starts_with(toks[0].as_str(), "end") {
        return None;
    }
    let ghost tv = toks.deep_view();
    let mut args: Vec<(String, String)> = Vec::new();
    let mut j: usize = 1;
    proof {
        assert(tv.skip(1) =~= tv.drop_first());
        assert(args_view(args@) =~= Seq::<(Seq<char>, Seq<char>)>::empty());
        assert(args_view(args@) + make_pairs(tv.skip(1)) =~= make_pairs(tv.skip(1)));
    }
    while j < toks.len()
        invariant
            1 <= j <= toks.len(),
            tv == toks.deep_view(),
            tv.len() >= 1,
            spec_open(line@) == (if pairs_ok(tv.drop_first()) {
                Some((tv[0], make_pairs(tv.drop_first())))
            } else {
                None::<(Seq<char>, Seq<(Seq<char>, Seq<char>)>)>
            }),
            pairs_ok(tv.drop_first()) == pairs_ok(tv.skip(j as int)),
            pairs_ok(tv.skip(j as int)) ==> make_pairs(tv.drop_first()) == args_view(args@)
                + make_pairs(tv.skip(j as int)),
        decreases toks.len() - j,
    {
        let ghost rest = tv.skip(j as int);
        if j + 1 >= toks.len() {
            proof {
                assert(rest.len() == 1);
            }
            return None;
        }
        let key_tok = &toks[j];
        let kn = key_tok.as_str().unicode_len();
        if kn < 2 || key_tok.as_str().get_char(kn - 1) != ':' {
            proof {
                assert(!is_key_token(rest[0]));
            }
            return None;
        }
        let key = chars_range(key_tok.as_str(), 0, kn - 1);
        let value = toks[j + 1].clone();
        let ghost a0 = args_view(args@);
        args.push((key, value));
        proof {
            assert(rest[0].drop_last() =~= key@);
            assert(args_view(args@) =~= a0.push((key@, value@)));
            assert(rest.skip(2) =~= tv.skip(j + 2));
            assert(make_pairs(rest) == seq![(rest[0].drop_last(), rest[1])] + make_pairs(
                rest.skip(2),
            ));
            if pairs_ok(tv.skip(j + 2)) {
                assert(args_view(args@) + make_pairs(tv.skip(j + 2)) =~= a0 + make_pairs(rest));
            }
        }
        j += 2;
    }
    proof {
        assert(tv.skip(j as int).len() == 0);
        assert(pairs_ok(tv.skip(j as int)));
        assert(args_view(args@) + make_pairs(tv.skip(j as int)) =~= args_view(args@));
    }
    let name = toks[0].clone();
    Some(BlockMacro { name, args, body: String::new() })
}

/// Whether a (trimmed) line is the closing marker for the macro `name`.
pub fn parse_block_end(line: &str, name: &str) -> (r: bool)
    ensures
        r == spec_is_end(line@, name@),
{
    let toks = match brace_tokens(line) {
        None => {
            return false;
        },
        Some(v) => v,
    };
    if toks.len() != 1 {
        proof {
            assert(line_tokens(line@).len() != 1);
        }
        return false;
    }
    let mut want = String::from_str("end");
    want.append(name);
    let got = toks[0] == want;
    proof {
        if got {
            assert(line_tokens(line@) =~= seq!["end"@ + name@]);
        } else {
            assert(line_tokens(line@) != seq!["end"@ + name@]) by {
                if line_tokens(line@) == seq!["end"@ + name@] {
                    assert(toks.deep_view()[0] == "end"@ + name@);
                }
            }
        }
    }
    got
}

/// Scans a run of raw lines for a block-macro capture starting at the first
/// line. Yields the capture and how many lines it consumed, or nothing where
/// the first line is no opening marker.
pub fn scan_macro(lines: &Vec<String>) -> (r: Option<(BlockMacro, usize)>)
    ensures
        (r is Some) == (spec_scan(lines.deep_view()) is Some),
        r matches Some(p) ==> {
            &&& spec_scan(lines.deep_view()) matches Some(s)
            &&& p.0.name@ == s.0
            &&& args_view(p.0.args@) == s.1
            &&& p.0.body@ == s.2
            &&& p.1 == s.3
        },
{
    let ghost lv = lines.deep_view();
    if lines.len() == 0 {
        return None;
    }
    let t0 = trim(lines[0].as_str());
    if !contains_str(t0.as_str(), "{%") {
        return None;
    }
    let mut m = match parse_block(t0.as_str()) {
        None => {
            return None;
        },
        Some(m) => m,
    };
    let ghost name = m.name@;
    let ghost args0 = args_view(m.args@);
    let mut i: usize = 1;
    proof {
        assert(m.body@ + spec_body_scan(lv, 1, name).0 =~= spec_body_scan(lv, 1, name).0);
        assert(spec_scan(lv) == Some(
            (name, args0, spec_body_scan(lv, 1, name).0, spec_body_scan(lv, 1, name).1),
        ));
    }
    while i < lines.len()
        invariant
            1 <= i <= lines.len(),
            lv == lines.deep_view(),
            m.name@ == name,
            args_view(m.args@) == args0,
            spec_scan(lv) == Some(
                (name, args0, spec_body_scan(lv, 1, name).0, spec_body_scan(lv, 1, name).1),
            ),
            m.body@ + spec_body_scan(lv, i as int, name).0 == spec_body_scan(lv, 1, name).0,
            spec_body_scan(lv, i as int, name).1 == spec_body_scan(lv, 1, name).1,
        decreases lines.len() - i,
    {
        let t = trim(lines[i].as_str());
        if parse_block_end(t.as_str(), m.name.as_str()) {
            proof {
                assert(spec_body_scan(lv, i as int, name) == (Seq::<char>::empty(), i + 1));
                assert(m.body@ =~= m.body@ + Seq::<char>::empty());
            }
            return Some((m, i + 1));
        }
        m.body.append(lines[i].as_str());
        m.body.append("\n");
        i += 1;
    }
    proof {
        assert(spec_body_scan(lv, lines.len() as int, name) == (
            Seq::<char>::empty(),
            lv.len() as int,
        ));
        assert(m.body@ =~= m.body@ + Seq::<char>::empty());
    }
    let consumed = lines.len();
    Some((m, consumed))
}

/// How an argument value reads in the target markup: a bare number or
/// boolean stands as written, anything else is quoted as a string.
pub open spec fn spec_value_typst(v: Seq<char>) -> Seq<char> {
    if (v.len() > 0 && all_digits(v)) || v == "true"@ || v == "false"@ {
        v
    } else {
        seq!['"'] + v + seq!['"']
    }
}

/// The argument lines of a rendered macro call.
pub open spec fn spec_args_typst(args: Seq<(Seq<char>, Seq<char>)>) -> Seq<char>
    decreases args.len(),
{
    if args.len() == 0 {
        Seq::<char>::empty()
    } else {
        "  "@ + args[0].0 + ": "@ + spec_value_typst(args[0].1) + ",\n"@ + spec_args_typst(
            args.drop_first(),
        )
    }
}

/// The rendered call for a captured macro: a call named after the macro,
/// carrying its arguments and its escaped body as a bracketed content
/// argument.
pub open spec fn spec_from_raw_macro(
    name: Seq<char>,
    args: Seq<(Seq<char>, Seq<char>)>,
    body: Seq<char>,
) -> Seq<char> {
    "\n\n#"@ + name + "(\n"@ + spec_args_typst(args) + "  [\n"@ + spec_typst_escape(body)
        + "  ]\n"@ + ")\n"@
}

/// The target-markup text standing in for a captured block macro.
pub struct TypstMacroNode(pub String);

impl TypstMacroNode {
    /// Renders a captured macro as a call in the target markup.
    pub fn from_raw_macro(m: &BlockMacro) -> (r: TypstMacroNode)
        ensures
            r.0@ == spec_from_raw_macro(m.name@, args_view(m.args@), m.body@),
    {
        let mut out = String::from_str("\n\n#");
        out.append(m.name.as_str());
        out.append("(\n");
        let ghost av = args_view(m.args@);
        let ghost base = out@;
        let mut i: usize = 0;
        proof {
            assert(av.skip(0) =~= av);
        }
        while i < m.args.len()
            invariant
                i <= m.args.len(),
                av == args_view(m.args@),
                base == "\n\n#"@ + m.name@ + "(\n"@,
                out@ + spec_args_typst(av.skip(i as int)) == base + spec_args_typst(av),
            decreases m.args.len() - i,
        {
            let ghost rest = av.skip(i as int);
            out.append("  ");
            out.append(m.args[i].0.as_str());
            out.append(": ");
            let v = &m.args[i].1;
            let quoted = !((v.as_str().unicode_len() > 0 && check_all_digits(v.as_str()))
                || str_eq(v.as_str(), "true") || str_eq(v.as_str(), "false"));
            if quoted {
                push_char(&mut out, '"');
                out.append(v.as_str());
                push_char(&mut out, '"');
                proof {
                    assert(spec_value_typst(rest[0].1) =~= seq!['"'] + v@ + seq!['"']);
                }
            } else {
                out.append(v.as_str());
            }
            out.append(",\n");
            proof {
                assert(rest.drop_first() =~= av.skip(i + 1));
                assert(rest[0] == (m.args@[i as int].0@, m.args@[i as int].1@));
            }
            i += 1;
        }
        proof {
            assert(spec_args_typst(av.skip(av.len() as int)) == Seq::<char>::empty());
            assert(out@ =~= out@ + Seq::<char>::empty());
        }
        out.append("  [\n");
        let escaped = typst_escape(m.body.as_str());
        out.append(escaped.as_str());
        out.append("  ]\n");
        out.append(")\n");
        TypstMacroNode(out)
    }
}

} // verus!
