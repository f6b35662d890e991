//! The markup transpiler: walks a parsed document tree and emits target
//! markup text.
//!
//! Footnotes take two passes. During the walk a counter numbers each
//! footnote reference and a placeholder is emitted in its place, while each
//! footnote definition is taken out of the flow and collected, rendered, on a
//! side list. After the walk the placeholders are replaced by the rendered
//! definitions, highest number first, so that a shorter placeholder can
//! never match inside a longer one.
//!
//! A macro invocation re-enters the whole transpilation on its own subtree
//! with a fresh footnote counter and side list, so footnote numbering
//! restarts inside each macro body.

use vstd::prelude::*;
use crate::error::Error;
use crate::text::{
    all_digits, check_all_digits, dec_string, is_digit_char, occurs, push_char, repeat,
    repeat_char, replace_all, spec_dec, spec_replace,
};
use crate::typ::{spec_typst_escape, typst_escape};

verus! {

/// One node of the parsed document tree.
///
/// A tree of these is handed in by whatever parses the lightweight markup;
/// the transpiler consumes it. `ListItem` carries the kind of the list it
/// belongs to, as set by the most recent list start seen by the parser.
/// `MacroInvocation` carries what the block-macro preprocessor captured —
/// name, ordered arguments and raw body — together with the parse of its
/// rendered call text, which the transpiler re-enters.
pub enum MarkupNode {
    Heading { level: u8, children: Vec<MarkupNode> },
    Paragraph { children: Vec<MarkupNode> },
    Text { content: String },
    InlineVerbatim { markup: String },
    Strong { children: Vec<MarkupNode> },
    HardBreak,
    SoftBreak,
    ListItem { ordered: bool, children: Vec<MarkupNode> },
    Image { url: String },
    FootnoteReference,
    FootnoteDefinition { label: Option<String>, children: Vec<MarkupNode> },
    MacroInvocation {
        name: String,
        args: Vec<(String, String)>,
        body: String,
        children: Vec<MarkupNode>,
    },
}

/// The flattened text of a subtree: the plain text content of its nodes in
/// order, a soft line break reading as a newline, and every other kind of
/// markup structure discarded.
pub open spec fn flat_nodes(ns: Seq<MarkupNode>) -> Seq<char>
    decreases ns,
{
    if ns.len() == 0 {
        Seq::<char>::empty()
    } else {
        flat_one(ns[0]) + flat_nodes(ns.drop_first())
    }
}

pub open spec fn flat_one(n: MarkupNode) -> Seq<char>
    decreases n,
{
    match n {
        MarkupNode::Text { content } => content@,
        MarkupNode::SoftBreak => "\n"@,
        MarkupNode::Heading { children, .. } => flat_nodes(children@),
        MarkupNode::Paragraph { children } => flat_nodes(children@),
        MarkupNode::Strong { children } => flat_nodes(children@),
        MarkupNode::ListItem { children, .. } => flat_nodes(children@),
        MarkupNode::FootnoteDefinition { children, .. } => flat_nodes(children@),
        MarkupNode::MacroInvocation { children, .. } => flat_nodes(children@),
        _ => Seq::<char>::empty(),
    }
}

/// How many footnote references the walk meets in `ns`: definitions and the
/// consumed subtrees below them do not count, and a macro body keeps its own
/// count.
pub open spec fn count_refs(ns: Seq<MarkupNode>) -> nat
    decreases ns,
{
    if ns.len() == 0 {
        0
    } else {
        count_one(ns[0]) + count_refs(ns.drop_first())
    }
}

pub open spec fn count_one(n: MarkupNode) -> nat
    decreases n,
{
    match n {
        MarkupNode::FootnoteReference => 1,
        MarkupNode::Heading { children, .. } => count_refs(children@),
        MarkupNode::Paragraph { children } => count_refs(children@),
        _ => 0,
    }
}

/// The side list the walk collects from `ns`: one entry per footnote
/// definition, its optional label and its rendered content.
pub open spec fn fn_entries(ns: Seq<MarkupNode>) -> Seq<(Option<Seq<char>>, Seq<char>)>
    decreases ns,
{
    if ns.len() == 0 {
        Seq::<(Option<Seq<char>>, Seq<char>)>::empty()
    } else {
        entry_one(ns[0]) + fn_entries(ns.drop_first())
    }
}

pub open spec fn entry_one(n: MarkupNode) -> Seq<(Option<Seq<char>>, Seq<char>)>
    decreases n,
{
    match n {
        MarkupNode::FootnoteDefinition { label, children } => seq![
            (
                match label {
                    Some(l) => Some(l@),
                    None => None,
                },
                "#footnote["@ + flat_nodes(children@) + "]"@,
            ),
        ],
        MarkupNode::Heading { children, .. } => fn_entries(children@),
        MarkupNode::Paragraph { children } => fn_entries(children@),
        _ => Seq::<(Option<Seq<char>>, Seq<char>)>::empty(),
    }
}

/// Every macro body below `ns` that the walk re-enters balances its own
/// footnote references against its own definitions.
pub open spec fn nodes_ok(ns: Seq<MarkupNode>) -> bool
    decreases ns,
{
    if ns.len() == 0 {
        true
    } else {
        node_ok(ns[0]) && nodes_ok(ns.drop_first())
    }
}

pub open spec fn node_ok(n: MarkupNode) -> bool
    decreases n,
{
    match n {
        MarkupNode::Heading { children, .. } => nodes_ok(children@),
        MarkupNode::Paragraph { children } => nodes_ok(children@),
        MarkupNode::MacroInvocation { children, .. } => count_refs(children@) == fn_entries(
            children@,
        ).len() && nodes_ok(children@),
        _ => true,
    }
}

/// The text the walk emits for `ns` when the footnote counter starts at `c`:
/// the placeholder pass, before any replacement.
pub open spec fn p1_out(ns: Seq<MarkupNode>, c: nat) -> Seq<char>
    decreases ns, 0int,
{
    if ns.len() == 0 {
        Seq::<char>::empty()
    } else {
        p1_one(ns[0], c) + p1_out(ns.drop_first(), c + count_one(ns[0]))
    }
}

/// What the walk emits for one node.
pub open spec fn p1_one(n: MarkupNode, c: nat) -> Seq<char>
    decreases n, 1int,
{
    match n {
        MarkupNode::Heading { level, children } => repeat_char('=', level as nat) + " "@
            + p1_out(children@, c),
        MarkupNode::Paragraph { children } => "\n\n"@ + p1_out(children@, c),
        MarkupNode::Text { content } => spec_typst_escape(content@) + "\n"@,
        MarkupNode::InlineVerbatim { markup } => markup@,
        MarkupNode::Strong { children } => "#strong(["@ + flat_nodes(children@) + "])"@,
        MarkupNode::HardBreak => "\\\n"@,
        MarkupNode::SoftBreak => "\n"@,
        MarkupNode::ListItem { ordered, children } => "\n"@ + (if ordered {
            "+ "@
        } else {
            "- "@
        }) + flat_nodes(children@),
        MarkupNode::Image { url } => "\n#image(height: 100%, \""@ + url@ + "\")\n"@,
        MarkupNode::FootnoteReference => placeholder((c + 1) as nat),
        MarkupNode::FootnoteDefinition { .. } => Seq::<char>::empty(),
        MarkupNode::MacroInvocation { children, .. } => spec_transpile_val(children@),
    }
}

/// The placeholder the walk leaves for footnote number `k`.
pub open spec fn placeholder(k: nat) -> Seq<char> {
    "[^"@ + spec_dec(k) + "]"@
}

/// A label made only of decimal digits (and at least one) stands for a bare
/// number and is treated as if it were absent.
pub open spec fn is_pure_number(lab: Seq<char>) -> bool {
    lab.len() > 0 && all_digits(lab)
}

/// A label with the decimal digits removed.
pub open spec fn spec_sanitize(s: Seq<char>) -> Seq<char>
    decreases s.len(),
{
    if s.len() == 0 {
        s
    } else if is_digit_char(s.last()) {
        spec_sanitize(s.drop_last())
    } else {
        spec_sanitize(s.drop_last()).push(s.last())
    }
}

/// What replaces a placeholder: the rendered definition; a labelled one
/// gains an emphasized prefix from its sanitized label, unless the label is
/// absent or a bare number.
pub open spec fn repl_for(entry: (Option<Seq<char>>, Seq<char>)) -> Seq<char> {
    match entry.0 {
        None => entry.1,
        Some(lab) => if is_pure_number(lab) {
            entry.1
        } else {
            spec_replace(entry.1, "#footnote["@, "#footnote[#emph["@ + spec_sanitize(lab) + ":] "@)
        },
    }
}

/// The replacement pass over `out`, for footnote numbers `k` down to one:
/// highest number first, so that a shorter placeholder is never matched
/// inside a longer one that is still waiting.
pub open spec fn pass2(
    out: Seq<char>,
    fns: Seq<(Option<Seq<char>>, Seq<char>)>,
    k: nat,
) -> Seq<char>
    decreases k,
{
    if k == 0 || k > fns.len() {
        out
    } else {
        pass2(spec_replace(out, placeholder(k), repl_for(fns[k - 1])), fns, (k - 1) as nat)
    }
}

/// The full transpilation of a subtree, assuming it is consistent: the walk
/// with the counter starting fresh, then the replacement pass.
pub open spec fn spec_transpile_val(ns: Seq<MarkupNode>) -> Seq<char>
    decreases ns, 2int,
{
    pass2(p1_out(ns, 0), fn_entries(ns), fn_entries(ns).len())
}

/// What transpiling `ns` produces: its text, or nothing when the footnote
/// references and definitions of the tree or of some macro body below it
/// disagree in number.
pub open spec fn spec_transpile(ns: Seq<MarkupNode>) -> Option<Seq<char>> {
    if count_refs(ns) == fn_entries(ns).len() && nodes_ok(ns) {
        Some(spec_transpile_val(ns))
    } else {
        None
    }
}

/// Only keep non-digit characters.
pub fn sanitize_label(label: &str) -> (r: String)
    ensures
        r@ == spec_sanitize(label@),
{
    let n = label.unicode_len();
    let mut r = String::new();
    let mut i: usize = 0;
    proof {
        assert(label@.take(0) =~= Seq::<char>::empty());
    }
    while i < n
        invariant
            i <= n,
            n == label@.len(),
            r@ == spec_sanitize(label@.take(i as int)),
        decreases n - i,
    {
        let c = label.get_char(i);
        proof {
            assert(label@.take(i + 1).drop_last() =~= label@.take(i as int));
            assert(label@.take(i + 1).last() == c);
        }
        let d = (c as u32) >= 48 && (c as u32) <= 57;
        proof {
            assert(d == is_digit_char(c)) by {
                assert(('0' as u32) == 48 && ('9' as u32) == 57);
                if d && !is_digit_char(c) {
                    assert(false) by {
                        assert((c as u32) == 48 || (c as u32) == 49 || (c as u32) == 50 || (c
                            as u32) == 51 || (c as u32) == 52 || (c as u32) == 53 || (c as u32)
                            == 54 || (c as u32) == 55 || (c as u32) == 56 || (c as u32) == 57);
                    }
                }
            }
        }
        if !d {
            push_char(&mut r, c);
        }
        i += 1;
    }
    proof {
        assert(label@.take(n as int) =~= label@);
    }
    r
}

/// The flattened text of a subtree, as [`flat_nodes`] gives it.
pub fn flatten_nodes(nodes: &Vec<MarkupNode>) -> (r: String)
    ensures
        r@ == flat_nodes(nodes@),
    decreases nodes@, 1int,
{
    let mut r = String::new();
    let mut i: usize = 0;
    proof {
        assert(nodes@.take(0) =~= Seq::<MarkupNode>::empty());
        lemma_flat_concat(nodes@.take(0), Seq::<MarkupNode>::empty());
    }
    while i < nodes.len()
        invariant
            i <= nodes.len(),
            r@ == flat_nodes(nodes@.take(i as int)),
        decreases nodes.len() - i,
    {
        let ghost pre = nodes@.take(i as int);
        let piece = flatten_one(&nodes[i]);
        r.append(piece.as_str());
        proof {
            assert(nodes@.take(i + 1) =~= pre + seq![nodes@[i as int]]);
            lemma_flat_concat(pre, seq![nodes@[i as int]]);
            assert(flat_nodes(seq![nodes@[i as int]]) == flat_one(nodes@[i as int]) + flat_nodes(
                Seq::<MarkupNode>::empty(),
            )) by {
                assert(seq![nodes@[i as int]].drop_first() =~= Seq::<MarkupNode>::empty());
            }
            assert(r@ == flat_nodes(nodes@.take(i + 1)));
        }
        i += 1;
    }
    proof {
        assert(nodes@.take(nodes@.len() as int) =~= nodes@);
    }
    r
}

fn flatten_one(node: &MarkupNode) -> (r: String)
    ensures
        r@ == flat_one(*node),
    decreases *node, 0int,
{
    match node {
        MarkupNode::Text { content } => content.clone(),
        MarkupNode::SoftBreak => String::from_str("\n"),
        MarkupNode::Heading { children, .. } => flatten_nodes(children),
        MarkupNode::Paragraph { children } => flatten_nodes(children),
        MarkupNode::Strong { children } => flatten_nodes(children),
        MarkupNode::ListItem { children, .. } => flatten_nodes(children),
        MarkupNode::FootnoteDefinition { children, .. } => flatten_nodes(children),
        MarkupNode::MacroInvocation { children, .. } => flatten_nodes(children),
        _ => String::new(),
    }
}

/// Flattening two runs of nodes one after the other flattens their
/// concatenation.
pub proof fn lemma_flat_concat(a: Seq<MarkupNode>, b: Seq<MarkupNode>)
    ensures
        flat_nodes(a + b) == flat_nodes(a) + flat_nodes(b),
    decreases a.len(),
{
    if a.len() == 0 {
        assert(a + b =~= b);
        assert(flat_nodes(a) + flat_nodes(b) =~= flat_nodes(b));
    } else {
        assert((a + b).drop_first() =~= a.drop_first() + b);
        lemma_flat_concat(a.drop_first(), b);
        assert((a + b)[0] == a[0]);
        assert(flat_one(a[0]) + (flat_nodes(a.drop_first()) + flat_nodes(b)) =~= (flat_one(a[0])
            + flat_nodes(a.drop_first())) + flat_nodes(b));
    }
}

/// Walking two runs of nodes one after the other counts, collects and emits
/// what walking their concatenation does, the counter carried across.
pub proof fn lemma_p1_concat(a: Seq<MarkupNode>, b: Seq<MarkupNode>, c: nat)
    ensures
        count_refs(a + b) == count_refs(a) + count_refs(b),
        fn_entries(a + b) == fn_entries(a) + fn_entries(b),
        nodes_ok(a + b) == (nodes_ok(a) && nodes_ok(b)),
        p1_out(a + b, c) == p1_out(a, c) + p1_out(b, (c + count_refs(a)) as nat),
    decreases a.len(),
{
    if a.len() == 0 {
        assert(a + b =~= b);
        assert(fn_entries(a) + fn_entries(b) =~= fn_entries(b));
        assert(p1_out(a, c) + p1_out(b, (c + count_refs(a)) as nat) =~= p1_out(b, c));
    } else {
        assert((a + b).drop_first() =~= a.drop_first() + b);
        assert((a + b)[0] == a[0]);
        lemma_p1_concat(a.drop_first(), b, (c + count_one(a[0])) as nat);
        assert(fn_entries(a + b) =~= fn_entries(a) + fn_entries(b));
        assert(p1_out(a + b, c) =~= p1_out(a, c) + p1_out(b, (c + count_refs(a)) as nat));
    }
}

/// A run of one node walks as that node alone.
pub proof fn lemma_p1_single(n: MarkupNode, c: nat)
    ensures
        count_refs(seq![n]) == count_one(n),
        fn_entries(seq![n]) == entry_one(n),
        nodes_ok(seq![n]) == node_ok(n),
        p1_out(seq![n], c) == p1_one(n, c),
{
    assert(seq![n].drop_first() =~= Seq::<MarkupNode>::empty());
    assert(count_refs(Seq::<MarkupNode>::empty()) == 0);
    assert(nodes_ok(Seq::<MarkupNode>::empty()));
    assert(entry_one(n) + fn_entries(Seq::<MarkupNode>::empty()) =~= entry_one(n));
    assert(p1_one(n, c) + p1_out(Seq::<MarkupNode>::empty(), (c + count_one(n)) as nat)
        =~= p1_one(n, c));
}

/// The spec-level shape of one collected side-list entry.
pub open spec fn entry_view(e: (Option<String>, String)) -> (Option<Seq<char>>, Seq<char>) {
    (
        match e.0 {
            Some(l) => Some(l@),
            None => None,
        },
        e.1@,
    )
}

/// The side list as the specification sees it.
pub open spec fn entries_view(v: Seq<(Option<String>, String)>) -> Seq<
    (Option<Seq<char>>, Seq<char>),
> {
    v.map_values(|e: (Option<String>, String)| entry_view(e))
}

/// Whether every footnote count met along the walk, macro bodies included,
/// fits the machine word that numbers them.
pub open spec fn refs_fit(ns: Seq<MarkupNode>) -> bool
    decreases ns,
{
    if ns.len() == 0 {
        true
    } else {
        node_refs_fit(ns[0]) && refs_fit(ns.drop_first())
    }
}

pub open spec fn node_refs_fit(n: MarkupNode) -> bool
    decreases n,
{
    match n {
        MarkupNode::Heading { children, .. } => refs_fit(children@),
        MarkupNode::Paragraph { children } => refs_fit(children@),
        MarkupNode::MacroInvocation { children, .. } => count_refs(children@) <= usize::MAX
            && refs_fit(children@),
        _ => true,
    }
}

pub proof fn lemma_refs_fit_concat(a: Seq<MarkupNode>, b: Seq<MarkupNode>)
    ensures
        refs_fit(a + b) == (refs_fit(a) && refs_fit(b)),
    decreases a.len(),
{
    if a.len() == 0 {
        assert(a + b =~= b);
    } else {
        assert((a + b).drop_first() =~= a.drop_first() + b);
        assert((a + b)[0] == a[0]);
        lemma_refs_fit_concat(a.drop_first(), b);
    }
}

/// The walk: appends to `out` what each node emits, numbering footnote
/// references through `counter` and collecting rendered footnote definitions
/// on `notes`. Fails only where a macro body it re-enters is inconsistent.
fn walk(
    nodes: &Vec<MarkupNode>,
    out: &mut String,
    counter: &mut usize,
    notes: &mut Vec<(Option<String>, String)>,
) -> (r: Result<(), Error>)
    requires
        old(counter) + count_refs(nodes@) <= usize::MAX,
        refs_fit(nodes@),
    ensures
        (r is Ok) == nodes_ok(nodes@),
        r is Ok ==> final(out)@ == old(out)@ + p1_out(nodes@, *old(counter) as nat),
        r is Ok ==> *final(counter) == *old(counter) + count_refs(nodes@),
        r is Ok ==> entries_view(final(notes)@) == entries_view(old(notes)@) + fn_entries(
            nodes@,
        ),
        r matches Err(e) ==> e matches Error::FootnoteConsistency { .. },
    decreases nodes@, 0int,
{
    let ghost c0 = *counter as nat;
    let ghost out0 = out@;
    let ghost ev0 = entries_view(notes@);
    let mut i: usize = 0;
    proof {
        assert(nodes@.take(0) =~= Seq::<MarkupNode>::empty());
        assert(out0 + p1_out(nodes@.take(0), c0) =~= out0);
        assert(ev0 + fn_entries(nodes@.take(0)) =~= ev0);
    }
    while i < nodes.len()
        invariant
            i <= nodes.len(),
            c0 + count_refs(nodes@) <= usize::MAX,
            refs_fit(nodes@),
            nodes_ok(nodes@.take(i as int)),
            *counter == c0 + count_refs(nodes@.take(i as int)),
            out@ == out0 + p1_out(nodes@.take(i as int), c0),
            entries_view(notes@) == ev0 + fn_entries(nodes@.take(i as int)),
        decreases nodes.len() - i,
    {
        let ghost pre = nodes@.take(i as int);
        let ghost node = nodes@[i as int];
        let ghost cc = (c0 + count_refs(pre)) as nat;
        proof {
            assert(nodes@.take(i + 1) =~= pre + seq![node]);
            lemma_p1_concat(pre, seq![node], c0);
            lemma_p1_single(node, cc);
            assert(nodes@ =~= nodes@.take(i + 1) + nodes@.skip(i + 1));
            lemma_p1_concat(nodes@.take(i + 1), nodes@.skip(i + 1), c0);
            lemma_refs_fit_concat(nodes@.take(i + 1), nodes@.skip(i + 1));
            lemma_refs_fit_concat(pre, seq![node]);
            assert(node_refs_fit(node)) by {
                assert(seq![node].drop_first() =~= Seq::<MarkupNode>::empty());
            }
            assert(c0 + count_refs(pre) + count_one(node) <= usize::MAX);
        }
        match &nodes[i] {
            MarkupNode::Heading { level, children } => {
                let marker = repeat('=', *level as usize);
                out.append(marker.as_str());
                out.append(" ");
                let sub = walk(children, out, counter, notes);
                if let Err(e) = sub {
                    proof {
                        assert(!node_ok(node));
                    }
                    return Err(e);
                }
            },
            MarkupNode::Paragraph { children } => {
                out.append("\n\n");
                let sub = walk(children, out, counter, notes);
                if let Err(e) = sub {
                    proof {
                        assert(!node_ok(node));
                    }
                    return Err(e);
                }
            },
            MarkupNode::Text { content } => {
                let escaped = typst_escape(content.as_str());
                out.append(escaped.as_str());
                out.append("\n");
            },
            MarkupNode::InlineVerbatim { markup } => {
                out.append(markup.as_str());
            },
            MarkupNode::Strong { children } => {
                out.append("#strong([");
                let flat = flatten_nodes(children);
                out.append(flat.as_str());
                out.append("])");
            },
            MarkupNode::HardBreak => {
                out.append("\\\n");
            },
            MarkupNode::SoftBreak => {
                out.append("\n");
            },
            MarkupNode::ListItem { ordered, children } => {
                out.append("\n");
                if *ordered {
                    out.append("+ ");
                } else {
                    out.append("- ");
                }
                let flat = flatten_nodes(children);
                out.append(flat.as_str());
            },
            MarkupNode::Image { url } => {
                out.append("\n#image(height: 100%, \"");
                out.append(url.as_str());
                out.append("\")\n");
            },
            MarkupNode::FootnoteReference => {
                *counter += 1;
                out.append("[^");
                let num = dec_string(*counter);
                out.append(num.as_str());
                out.append("]");
            },
            MarkupNode::FootnoteDefinition { label, children } => {
                let flat = flatten_nodes(children);
                let mut content = String::from_str("#footnote[");
                content.append(flat.as_str());
                content.append("]");
                let lab: Option<String> = match label {
                    Some(l) => Some(l.clone()),
                    None => None,
                };
                let ghost ev_pre = entries_view(notes@);
                notes.push((lab, content));
                proof {
                    assert(entries_view(notes@) =~= ev_pre.push(entry_view(notes@.last())));
                    assert(entries_view(notes@) =~= ev0 + fn_entries(nodes@.take(i + 1)));
                }
            },
            MarkupNode::MacroInvocation { children, .. } => {
                match markdown_to_typst_content(children) {
                    Ok(s) => {
                        out.append(s.as_str());
                    },
                    Err(e) => {
                        proof {
                            assert(!node_ok(node));
                        }
                        return Err(e);
                    },
                }
            },
        }
        proof {
            assert(out@ == out0 + p1_out(nodes@.take(i + 1), c0));
            assert(entries_view(notes@) == ev0 + fn_entries(nodes@.take(i + 1)));
        }
        i += 1;
    }
    proof {
        assert(nodes@.take(nodes@.len() as int) =~= nodes@);
    }
    Ok(())
}

/// Transpiles a parsed document tree to target markup text.
///
/// The walk numbers each footnote reference and emits a placeholder for it,
/// collecting the rendered definitions aside; the placeholders are then
/// replaced, highest number first. Fails, without partial output, where the
/// references counted and the definitions collected disagree, here or in a
/// macro body.
pub fn markdown_to_typst_content(nodes: &Vec<MarkupNode>) -> (r: Result<String, Error>)
    requires
        count_refs(nodes@) <= usize::MAX,
        refs_fit(nodes@),
    ensures
        (r is Ok) == (spec_transpile(nodes@) is Some),
        r matches Ok(s) ==> Some(s@) == spec_transpile(nodes@),
        r matches Err(e) ==> e matches Error::FootnoteConsistency { .. },
    decreases nodes@, 1int,
{
    let mut out = String::new();
    let mut counter: usize = 0;
    let mut notes: Vec<(Option<String>, String)> = Vec::new();
    proof {
        assert(entries_view(notes@) =~= Seq::<(Option<Seq<char>>, Seq<char>)>::empty());
    }
    let walked = walk(nodes, &mut out, &mut counter, &mut notes);
    if let Err(e) = walked {
        return Err(e);
    }
    if counter != notes.len() {
        proof {
            assert(entries_view(notes@).len() == notes@.len());
        }
        return Err(Error::FootnoteConsistency { counted: counter, collected: notes.len() });
    }
    let ghost fns = fn_entries(nodes@);
    let ghost n = counter as nat;
    proof {
        assert(entries_view(notes@) =~= Seq::<(Option<Seq<char>>, Seq<char>)>::empty() + fns);
        assert(entries_view(notes@) == fns);
        assert(fns.len() == entries_view(notes@).len());
        assert(out@ =~= Seq::<char>::empty() + p1_out(nodes@, 0));
    }
    let ghost out0 = out@;
    let mut text = out;
    let mut k: usize = counter;
    while k > 0
        invariant
            k <= counter,
            counter == notes.len(),
            entries_view(notes@) == fns,
            fns.len() == counter,
            pass2(out0, fns, counter as nat) == pass2(text@, fns, k as nat),
        decreases k,
    {
        let entry = &notes[k - 1];
        let repl: String = match &entry.0 {
            None => entry.1.clone(),
            Some(lab) => {
                if lab.as_str().unicode_len() > 0 && check_all_digits(lab.as_str()) {
                    entry.1.clone()
                } else {
                    let mut pref = String::from_str("#footnote[#emph[");
                    let clean = sanitize_label(lab.as_str());
                    pref.append(clean.as_str());
                    pref.append(":] ");
                    proof {
                        reveal_strlit("#footnote[");
                    }
                    replace_all(entry.1.as_str(), "#footnote[", pref.as_str())
                }
            },
        };
        proof {
            assert(entries_view(notes@)[k - 1] == entry_view(notes@[k - 1]));
            assert(repl@ == repl_for(fns[k - 1]));
        }
        let mut ph = String::from_str("[^");
        let num = dec_string(k);
        ph.append(num.as_str());
        ph.append("]");
        proof {
            assert(ph@ == placeholder(k as nat));
            crate::text::lemma_dec_digits(k as nat);
            assert(ph@.len() > 0);
        }
        text = replace_all(text.as_str(), ph.as_str(), repl.as_str());
        k -= 1;
    }
    proof {
        assert(pass2(text@, fns, 0) == text@);
        assert(text@ == spec_transpile_val(nodes@));
    }
    Ok(text)
}

/// The characters of a placeholder: an opening bracket and caret, decimal
/// digits, one closing bracket at the end and nowhere else, and never the
/// replacement-opening character.
pub proof fn lemma_placeholder_props(k: nat)
    ensures
        placeholder(k).len() >= 3,
        forall|x: int| 0 <= x < placeholder(k).len() ==> placeholder(k)[x] != '#',
        forall|x: int| 0 <= x < placeholder(k).len() - 1 ==> placeholder(k)[x] != ']',
        placeholder(k).last() == ']',
{
    reveal_strlit("[^");
    reveal_strlit("]");
    crate::text::lemma_dec_digits(k);
    let ph = placeholder(k);
    let d = spec_dec(k);
    assert(ph.len() == 2 + d.len() + 1);
    assert forall|x: int| 0 <= x < ph.len() implies ph[x] != '#' && (x < ph.len() - 1 ==> ph[x]
        != ']') by {
        if x < 2 {
            assert(ph[x] == "[^"@[x]);
        } else if x < 2 + d.len() {
            assert(ph[x] == d[x - 2]);
            assert(is_digit_char(d[x - 2]));
        } else {
            assert(ph[x] == "]"@[x - 2 - d.len()]);
        }
    }
    assert(ph.last() == "]"@[0]);
}

/// A side-list entry whose rendered content is footnote-shaped: it opens
/// with the call character and closes with a bracket.
pub open spec fn entry_shaped(e: (Option<Seq<char>>, Seq<char>)) -> bool {
    e.1.len() >= 1 && e.1[0] == '#' && e.1.last() == ']'
}

/// Every entry the walk collects is footnote-shaped.
pub proof fn lemma_entries_shape(ns: Seq<MarkupNode>)
    ensures
        forall|j: int|
            0 <= j < fn_entries(ns).len() ==> entry_shaped(#[trigger] fn_entries(ns)[j]),
    decreases ns,
{
    if ns.len() > 0 {
        lemma_entry_one_shape(ns[0]);
        lemma_entries_shape(ns.drop_first());
        assert forall|j: int| 0 <= j < fn_entries(ns).len() implies entry_shaped(
            #[trigger] fn_entries(ns)[j],
        ) by {
            let head = entry_one(ns[0]);
            if j < head.len() {
                assert(fn_entries(ns)[j] == head[j]);
            } else {
                assert(fn_entries(ns)[j] == fn_entries(ns.drop_first())[j - head.len()]);
            }
        }
    }
}

proof fn lemma_entry_one_shape(n: MarkupNode)
    ensures
        forall|j: int| 0 <= j < entry_one(n).len() ==> entry_shaped(#[trigger] entry_one(n)[j]),
    decreases n,
{
    reveal_strlit("#footnote[");
    reveal_strlit("]");
    match n {
        MarkupNode::FootnoteDefinition { label, children } => {
            let e = entry_one(n)[0];
            assert(e.1 == "#footnote["@ + flat_nodes(children@) + "]"@);
            assert(e.1[0] == '#') by {
                assert(e.1[0] == "#footnote["@[0]);
            }
            assert(e.1.last() == ']') by {
                assert(e.1.last() == "]"@[0]);
            }
            assert(entry_shaped(e));
            assert(entry_one(n).len() == 1);
            assert forall|j: int| 0 <= j < entry_one(n).len() implies entry_shaped(
                #[trigger] entry_one(n)[j],
            ) by {
                assert(j == 0);
            }
        },
        MarkupNode::Heading { children, .. } => {
            lemma_entries_shape(children@);
            assert forall|j: int| 0 <= j < entry_one(n).len() implies entry_shaped(
                #[trigger] entry_one(n)[j],
            ) by {
                assert(entry_shaped(fn_entries(children@)[j]));
            }
        },
        MarkupNode::Paragraph { children } => {
            lemma_entries_shape(children@);
            assert forall|j: int| 0 <= j < entry_one(n).len() implies entry_shaped(
                #[trigger] entry_one(n)[j],
            ) by {
                assert(entry_shaped(fn_entries(children@)[j]));
            }
        },
        _ => {},
    }
}

/// What replaces a placeholder is footnote-shaped too, with or without the
/// emphasized label prefix.
pub proof fn lemma_repl_shape(e: (Option<Seq<char>>, Seq<char>))
    requires
        entry_shaped(e),
    ensures
        repl_for(e).len() >= 1,
        repl_for(e)[0] == '#',
        repl_for(e).last() == ']',
{
    reveal_strlit("#footnote[");
    reveal_strlit("#footnote[#emph[");
    match e.0 {
        None => {},
        Some(lab) => {
            if !is_pure_number(lab) {
                let pat = "#footnote["@;
                let pref = "#footnote[#emph["@ + spec_sanitize(lab) + ":] "@;
                assert(pat.last() == '[');
                assert(pref[0] == "#footnote[#emph["@[0]);
                crate::text::lemma_replace_last(e.1, pat, pref);
                crate::text::lemma_replace_first(e.1, pat, pref);
            }
        },
    }
}

/// The replacement pass writes no occurrence of a bracket-shaped text `q`
/// into a text that is free of it, where no replacement carries `q` either.
proof fn lemma_pass2_preserves_free(
    x: Seq<char>,
    fns: Seq<(Option<Seq<char>>, Seq<char>)>,
    k: nat,
    q: Seq<char>,
)
    requires
        q.len() >= 1,
        forall|y: int| 0 <= y < q.len() ==> q[y] != '#',
        forall|y: int| 0 <= y < q.len() - 1 ==> q[y] != ']',
        forall|j: int| 0 <= j < fns.len() ==> entry_shaped(#[trigger] fns[j]),
        forall|j: int| 0 <= j < fns.len() ==> !occurs(repl_for(#[trigger] fns[j]), q),
        !occurs(x, q),
    ensures
        !occurs(pass2(x, fns, k), q),
    decreases k,
{
    if k == 0 || k > fns.len() {
    } else {
        let pat = placeholder(k);
        let r = repl_for(fns[k - 1]);
        lemma_placeholder_props(k);
        lemma_repl_shape(fns[k - 1]);
        crate::text::lemma_replace_no_occurrence(x, pat, r, q);
        lemma_pass2_preserves_free(spec_replace(x, pat, r), fns, (k - 1) as nat, q);
    }
}

/// After the replacement pass down from `k`, no placeholder numbered up to
/// `k` occurs in the result.
proof fn lemma_pass2_free(x: Seq<char>, fns: Seq<(Option<Seq<char>>, Seq<char>)>, k: nat)
    requires
        k <= fns.len(),
        forall|j: int| 0 <= j < fns.len() ==> entry_shaped(#[trigger] fns[j]),
        forall|j: int, i: nat|
            0 <= j < fns.len() && 1 <= i <= fns.len() ==> !occurs(
                repl_for(#[trigger] fns[j]),
                #[trigger] placeholder(i),
            ),
    ensures
        forall|i: nat| 1 <= i <= k ==> !occurs(pass2(x, fns, k), #[trigger] placeholder(i)),
    decreases k,
{
    if k >= 1 {
        let pat = placeholder(k);
        let r = repl_for(fns[k - 1]);
        lemma_placeholder_props(k);
        lemma_repl_shape(fns[k - 1]);
        crate::text::lemma_replace_no_occurrence(x, pat, r, pat);
        let x2 = spec_replace(x, pat, r);
        lemma_pass2_preserves_free(x2, fns, (k - 1) as nat, pat);
        lemma_pass2_free(x2, fns, (k - 1) as nat);
        assert forall|i: nat| 1 <= i <= k implies !occurs(
            pass2(x, fns, k),
            #[trigger] placeholder(i),
        ) by {
            assert(pass2(x, fns, k) == pass2(x2, fns, (k - 1) as nat));
            if i < k {
                assert(!occurs(pass2(x2, fns, (k - 1) as nat), placeholder(i)));
            } else {
                assert(!occurs(pass2(x2, fns, (k - 1) as nat), placeholder(k)));
            }
        }
    }
}

/// After a full transpilation, no footnote placeholder survives: for every
/// `k` up to the number of footnotes of the tree, the output holds no
/// occurrence of the placeholder numbered `k`. This is stated for trees
/// whose rendered footnote contents carry no placeholder text of their own:
/// a content that does would be written back in by the very replacement
/// that consumes it.
pub proof fn lemma_no_placeholder_remains(ns: Seq<MarkupNode>, k: nat)
    requires
        spec_transpile(ns) is Some,
        1 <= k <= fn_entries(ns).len(),
        forall|j: int, i: nat|
            0 <= j < fn_entries(ns).len() && 1 <= i <= fn_entries(ns).len() ==> !occurs(
                repl_for(#[trigger] fn_entries(ns)[j]),
                #[trigger] placeholder(i),
            ),
    ensures
        spec_transpile(ns) matches Some(out) ==> !occurs(out, placeholder(k)),
{
    lemma_entries_shape(ns);
    lemma_pass2_free(p1_out(ns, 0), fn_entries(ns), fn_entries(ns).len());
}

} // verus!
