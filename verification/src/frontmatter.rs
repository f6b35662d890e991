//! The document metadata block: splitting it from the body text and
//! serializing it as a target-markup header.

use vstd::prelude::*;
use crate::error::Error;
use crate::macros::args_view;
use crate::path::spec_relative_parts;
use crate::text::{
    chars_range, ends_with, join_parts, push_char, raw_split, spec_ends_with, split_raw, str_eq,
};
use crate::theme::{spec_zine_resource_from_theme, Theme};
use crate::typ::{spec_typst_escape, typst_escape};
use crate::zine::ZineFile;

verus! {

/// The parsed metadata of a document: its scalar fields and, per theme name,
/// a mapping of string settings. Only the first theme entry is ever
/// consulted — a single-theme contract.
pub struct FrontMatter {
    pub title: String,
    pub subtitle: Option<String>,
    pub author: Option<String>,
    pub description: Option<String>,
    pub summary: Option<String>,
    pub themes: Vec<(String, Vec<(String, String)>)>,
}

/// The theme mapping as the specification sees it.
pub open spec fn themes_view(v: Seq<(String, Vec<(String, String)>)>) -> Seq<
    (Seq<char>, Seq<(Seq<char>, Seq<char>)>),
> {
    v.map_values(|p: (String, Vec<(String, String)>)| (p.0@, args_view(p.1@)))
}

/// The settings of the first entry carrying `name`, if any.
pub open spec fn spec_find_theme(
    themes: Seq<(Seq<char>, Seq<(Seq<char>, Seq<char>)>)>,
    name: Seq<char>,
) -> Option<Seq<(Seq<char>, Seq<char>)>>
    decreases themes.len(),
{
    if themes.len() == 0 {
        None
    } else if themes[0].0 == name {
        Some(themes[0].1)
    } else {
        spec_find_theme(themes.drop_first(), name)
    }
}

/// The scalar lines of the header: the title, then each optional field that
/// is present, every string value escaped per the target markup's escaping
/// rule.
pub open spec fn spec_fm_scalars(fm: FrontMatter) -> Seq<char> {
    "title: \""@ + spec_typst_escape(fm.title@) + "\",\n"@ + (match fm.subtitle {
        Some(s) => "subtitle: \""@ + spec_typst_escape(s@) + "\",\n"@,
        None => Seq::<char>::empty(),
    }) + (match fm.author {
        Some(a) => "author: \""@ + spec_typst_escape(a@) + "\",\n"@,
        None => Seq::<char>::empty(),
    }) + (match fm.description {
        Some(d) => "description: [ "@ + spec_typst_escape(d@) + " ],\n"@,
        None => Seq::<char>::empty(),
    }) + (match fm.summary {
        Some(s) => "summary: [ "@ + spec_typst_escape(s@) + " ],\n"@,
        None => Seq::<char>::empty(),
    })
}

/// How one setting value is encoded, by a suffix convention on its key: a
/// `_color` key wraps the value in a color constructor; a `_size`,
/// `_spacing` or `_bool` key (or exactly `debug`) passes it through as a raw
/// literal; a `_res` key treats it as a resource path rewritten relative to
/// the theme and quotes it; anything else is quoted as a plain string.
pub open spec fn spec_setting_value(
    k: Seq<char>,
    v: Seq<char>,
    zf_abs: bool,
    zf_segs: Seq<Seq<char>>,
) -> Seq<char> {
    if spec_ends_with(k, "_color"@) {
        "rgb(\""@ + v + "\")"@
    } else if spec_ends_with(k, "_size"@) || spec_ends_with(k, "_spacing"@) || spec_ends_with(
        k,
        "_bool"@,
    ) || k == "debug"@ {
        v
    } else if spec_ends_with(k, "_res"@) {
        seq!['"'] + spec_zine_resource_from_theme(zf_abs, zf_segs, v) + seq!['"']
    } else {
        seq!['"'] + v + seq!['"']
    }
}

/// The setting lines of the header, in the order the settings carry.
pub open spec fn spec_settings(
    settings: Seq<(Seq<char>, Seq<char>)>,
    zf_abs: bool,
    zf_segs: Seq<Seq<char>>,
) -> Seq<char>
    decreases settings.len(),
{
    if settings.len() == 0 {
        Seq::<char>::empty()
    } else {
        settings[0].0 + ": "@ + spec_setting_value(settings[0].0, settings[0].1, zf_abs, zf_segs)
            + ",\n"@ + spec_settings(settings.drop_first(), zf_abs, zf_segs)
    }
}

/// The whole serialized metadata: the scalar lines, then the settings of the
/// selected theme where the mapping carries it.
pub open spec fn spec_to_typst(
    fm: FrontMatter,
    theme_name: Seq<char>,
    zf_abs: bool,
    zf_segs: Seq<Seq<char>>,
) -> Seq<char> {
    spec_fm_scalars(fm) + (match spec_find_theme(themes_view(fm.themes@), theme_name) {
        None => Seq::<char>::empty(),
        Some(settings) => spec_settings(settings, zf_abs, zf_segs),
    })
}

impl FrontMatter {
    /// The scalar lines of the serialized metadata.
    #[verifier::rlimit(60)]
    fn scalars(&self) -> (r: String)
        ensures
            r@ == spec_fm_scalars(*self),
    {
        let mut out = String::from_str("title: \"");
        let t = typst_escape(self.title.as_str());
        out.append(t.as_str());
        out.append("\",\n");
        if let Some(subtitle) = &self.subtitle {
            out.append("subtitle: \"");
            let e = typst_escape(subtitle.as_str());
            out.append(e.as_str());
            out.append("\",\n");
        }
        if let Some(author) = &self.author {
            out.append("author: \"");
            let e = typst_escape(author.as_str());
            out.append(e.as_str());
            out.append("\",\n");
        }
        if let Some(description) = &self.description {
            out.append("description: [ ");
            let e = typst_escape(description.as_str());
            out.append(e.as_str());
            out.append(" ],\n");
        }
        if let Some(summary) = &self.summary {
            out.append("summary: [ ");
            let e = typst_escape(summary.as_str());
            out.append(e.as_str());
            out.append(" ],\n");
        }
        out
    }

    /// Serializes the metadata for the typesetting engine: scalar fields in
    /// fixed order, then the selected theme's settings, each encoded by the
    /// suffix convention on its key.
    #[verifier::rlimit(60)]
    pub fn to_typst(&self, zine: &ZineFile, theme: &Theme) -> (r: String)
        ensures
            r@ == spec_to_typst(*self, theme.name@, zine.file.path.absolute, zine.file.path.segs()),
    {
        let ghost zfa = zine.file.path.absolute;
        let ghost zfs = zine.file.path.segs();
        let mut out = self.scalars();
        let ghost tv = themes_view(self.themes@);
        let mut found: Option<&Vec<(String, String)>> = None;
        let mut i: usize = 0;
        proof {
            assert(tv.skip(0) =~= tv);
        }
        while i < self.themes.len()
            invariant
                i <= self.themes.len(),
                tv == themes_view(self.themes@),
                found is None ==> spec_find_theme(tv, theme.name@) == spec_find_theme(
                    tv.skip(i as int),
                    theme.name@,
                ),
                found matches Some(s) ==> spec_find_theme(tv, theme.name@) == Some(args_view(s@)),
                found is Some ==> i == self.themes.len(),
            decreases self.themes.len() - i,
        {
            let ghost rest = tv.skip(i as int);
            proof {
                assert(rest[0] == (self.themes@[i as int].0@, args_view(
                    self.themes@[i as int].1@,
                )));
                assert(rest.drop_first() =~= tv.skip(i + 1));
            }
            if str_eq(self.themes[i].0.as_str(), theme.name.as_str()) {
                found = Some(&self.themes[i].1);
                i = self.themes.len();
            } else {
                i += 1;
            }
        }
        proof {
            if found is None {
                assert(tv.skip(tv.len() as int).len() == 0);
            }
        }
        if let Some(settings) = found {
            let ghost sv = args_view(settings@);
            let ghost base = out@;
            let mut j: usize = 0;
            proof {
                assert(sv.skip(0) =~= sv);
            }
            while j < settings.len()
                invariant
                    j <= settings.len(),
                    sv == args_view(settings@),
                    zfa == zine.file.path.absolute,
                    zfs == zine.file.path.segs(),
                    out@ + spec_settings(sv.skip(j as int), zfa, zfs) == base + spec_settings(
                        sv,
                        zfa,
                        zfs,
                    ),
                decreases settings.len() - j,
            {
                let ghost rest = sv.skip(j as int);
                proof {
                    assert(rest[0] == (settings@[j as int].0@, settings@[j as int].1@));
                    assert(rest.drop_first() =~= sv.skip(j + 1));
                }
                let k = &settings[j].0;
                let v = &settings[j].1;
                out.append(k.as_str());
                out.append(": ");
                if ends_with(k.as_str(), "_color") {
                    out.append("rgb(\"");
                    out.append(v.as_str());
                    out.append("\")");
                } else if ends_with(k.as_str(), "_size") || ends_with(k.as_str(), "_spacing")
                    || ends_with(k.as_str(), "_bool") || str_eq(k.as_str(), "debug") {
                    out.append(v.as_str());
                } else if ends_with(k.as_str(), "_res") {
                    push_char(&mut out, '"');
                    let res = theme.zine_resource_relative_from_theme(v.as_str(), zine);
                    out.append(res.as_str());
                    push_char(&mut out, '"');
                } else {
                    push_char(&mut out, '"');
                    out.append(v.as_str());
                    push_char(&mut out, '"');
                }
                out.append(",\n");
                j += 1;
            }
            proof {
                assert(spec_settings(sv.skip(sv.len() as int), zfa, zfs) == Seq::<char>::empty());
                assert(out@ =~= out@ + Seq::<char>::empty());
            }
        }
        out
    }
}

/// The lines of a text, split at newlines, a trailing newline closing the
/// last line rather than opening an empty one.
pub open spec fn spec_lines(s: Seq<char>) -> Seq<Seq<char>> {
    let parts = raw_split(s, '\n');
    if parts.len() > 0 && parts.last().len() == 0 {
        parts.drop_last()
    } else {
        parts
    }
}

/// Each line indented by two spaces and closed by a newline.
pub open spec fn spec_indent_lines(ls: Seq<Seq<char>>) -> Seq<char>
    decreases ls.len(),
{
    if ls.len() == 0 {
        Seq::<char>::empty()
    } else {
        "  "@ + ls[0] + "\n"@ + spec_indent_lines(ls.drop_first())
    }
}

/// The full header: an import of the theme file by its route from the
/// document, then a single call-style block carrying the serialized
/// metadata, indented line by line.
pub open spec fn spec_with_typst_header(
    fm: FrontMatter,
    theme_name: Seq<char>,
    tf_segs: Seq<Seq<char>>,
    zf_abs: bool,
    zf_segs: Seq<Seq<char>>,
) -> Seq<char> {
    let rel = join_parts(
        spec_relative_parts(zf_segs.drop_last(), tf_segs.drop_last(), tf_segs.last()),
        '/',
    );
    "#import \""@ + rel + "\": *\n#show: zine.with("@ + spec_indent_lines(
        spec_lines(spec_to_typst(fm, theme_name, zf_abs, zf_segs)),
    ) + ")\n\n"@
}

impl FrontMatter {
    /// The serialized metadata wrapped as a complete header for the
    /// typesetting engine.
    pub fn with_typst_header(&self, zine: &ZineFile, theme: &Theme) -> (r: String)
        requires
            theme.themefile.path.segs().len() >= 1,
            zine.file.path.segs().len() >= 1,
        ensures
            r@ == spec_with_typst_header(
                *self,
                theme.name@,
                theme.themefile.path.segs(),
                zine.file.path.absolute,
                zine.file.path.segs(),
            ),
    {
        let rel = theme.relative_to_zine(zine);
        let mut out = String::from_str("#import \"");
        out.append(rel.as_str());
        out.append("\": *\n#show: zine.with(");
        let body_text = self.to_typst(zine, theme);
        let mut lines = split_raw(body_text.as_str(), '\n');
        proof {
            crate::text::lemma_raw_split_len(body_text@, '\n');
        }
        if lines[lines.len() - 1].as_str().unicode_len() == 0 {
            let ghost pre = lines.deep_view();
            let _dropped = lines.pop();
            proof {
                assert(lines.deep_view() =~= pre.drop_last());
            }
        }
        let ghost lv = lines.deep_view();
        let ghost base = out@;
        proof {
            assert(lv == spec_lines(body_text@));
            assert(lv.skip(0) =~= lv);
        }
        let mut i: usize = 0;
        while i < lines.len()
            invariant
                i <= lines.len(),
                lv == lines.deep_view(),
                out@ + spec_indent_lines(lv.skip(i as int)) == base + spec_indent_lines(lv),
            decreases lines.len() - i,
        {
            let ghost rest = lv.skip(i as int);
            proof {
                assert(rest[0] == lines.deep_view()[i as int]);
                assert(rest.drop_first() =~= lv.skip(i + 1));
            }
            out.append("  ");
            out.append(lines[i].as_str());
            out.append("\n");
            i += 1;
        }
        proof {
            assert(spec_indent_lines(lv.skip(lv.len() as int)) == Seq::<char>::empty());
            assert(out@ =~= out@ + Seq::<char>::empty());
        }
        out.append(")\n\n");
        out
    }
}

/// `s` with every leading repetition of the metadata delimiter removed.
pub open spec fn strip_pluses(s: Seq<char>) -> Seq<char>
    decreases s.len(),
{
    if s.len() >= 3 && s[0] == '+' && s[1] == '+' && s[2] == '+' {
        strip_pluses(s.skip(3))
    } else {
        s
    }
}

/// A closing metadata delimiter stands at `i`: a newline followed by the
/// delimiter characters.
pub open spec fn delim_at(t: Seq<char>, i: int) -> bool {
    0 <= i && i + 4 <= t.len() && t[i] == '\n' && t[i + 1] == '+' && t[i + 2] == '+' && t[i + 3]
        == '+'
}

/// Splits a raw document into its metadata text and its body: the text
/// after the opening delimiter up to the first closing delimiter, and
/// everything after that delimiter. Fails where no closing delimiter
/// follows.
pub fn split_frontmatter(content: &str) -> (r: Result<(String, String), Error>)
    ensures
        (r is Ok) == exists|i: int| delim_at(strip_pluses(content@), i),
        r matches Ok(p) ==> exists|i: int|
            {
                &&& #[trigger] delim_at(strip_pluses(content@), i)
                &&& forall|j: int| 0 <= j < i ==> !delim_at(strip_pluses(content@), j)
                &&& p.0@ == strip_pluses(content@).take(i)
                &&& p.1@ == strip_pluses(content@).skip(i + 4)
            },
        r matches Err(e) ==> e matches Error::FrontMatterParse { .. },
{
    let n = content.unicode_len();
    let mut a: usize = 0;
    proof {
        assert(content@.skip(0) =~= content@);
    }
    while a < n && n - a >= 3 && content.get_char(a) == '+' && content.get_char(a + 1) == '+'
        && content.get_char(a + 2) == '+'
        invariant
            a <= n,
            n == content@.len(),
            strip_pluses(content@) == strip_pluses(content@.skip(a as int)),
        decreases n - a,
    {
        proof {
            assert(content@.skip(a as int).skip(3) =~= content@.skip(a + 3));
        }
        a += 3;
    }
    let t = chars_range(content, a, n);
    let ghost tv = strip_pluses(content@);
    proof {
        assert(t@ == tv);
    }
    let m = t.as_str().unicode_len();
    let mut i: usize = 0;
    while i < m && m - i >= 4
        invariant
            i <= m,
            m == t@.len(),
            tv == t@,
            tv == strip_pluses(content@),
            forall|j: int| 0 <= j < i ==> !delim_at(tv, j),
        decreases m - i,
    {
        if t.as_str().get_char(i) == '\n' && t.as_str().get_char(i + 1) == '+' && t.as_str()
            .get_char(i + 2) == '+' && t.as_str().get_char(i + 3) == '+' {
            let toml_part = chars_range(t.as_str(), 0, i);
            let body_part = chars_range(t.as_str(), i + 4, m);
            proof {
                assert(delim_at(tv, i as int));
                assert(toml_part@ =~= tv.take(i as int));
                assert(body_part@ =~= tv.skip(i + 4));
            }
            return Ok((toml_part, body_part));
        }
        i += 1;
    }
    proof {
        assert(forall|j: int| delim_at(tv, j) ==> 0 <= j && j + 4 <= m);
        assert(forall|j: int| 0 <= j < i ==> !delim_at(tv, j));
        assert(!(exists|j: int| delim_at(tv, j)));
    }
    Err(Error::FrontMatterParse {  })
}

} // verus!
