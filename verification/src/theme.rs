//! A named styling bundle: its principal file lives at a fixed, convention
//! given place under the base directory.

use vstd::prelude::*;
use crate::path::{
    is_abs_str, path_segments, spec_relative_parts, spec_render, spec_sibling, BaseDir, RootPath,
};
use crate::text::{
    join_parts, lemma_nonempty_parts_concat, lemma_nonempty_parts_single, lemma_raw_split_concat,
    lemma_raw_split_whole, push_char,
};
use crate::zine::ZineFile;

verus! {

/// The textual route to a document-side resource as seen from a theme's own
/// directory: the resource beside the document, reached after two upward
/// steps — unless the resource path is itself absolute, which stands alone.
pub open spec fn spec_zine_resource_from_theme(
    zf_abs: bool,
    zf_segs: Seq<Seq<char>>,
    res: Seq<char>,
) -> Seq<char> {
    let sib = spec_sibling(zf_abs, zf_segs, is_abs_str(res), path_segments(res));
    if sib.0 {
        spec_render(true, sib.1)
    } else {
        spec_render(false, seq![".."@, ".."@] + sib.1)
    }
}

/// A named styling bundle under the base directory.
pub struct Theme {
    pub basedir: BaseDir,
    pub themefile: RootPath,
    pub name: String,
}

impl Theme {
    /// The theme named `name`: its principal file lives at
    /// `themes/<name>/theme.typ` under the base directory.
    pub fn new(basedir: &BaseDir, name: &str) -> (r: Theme)
        ensures
            r.name@ == name@,
            r.basedir.segs() == basedir.segs(),
            r.basedir.path.absolute == basedir.path.absolute,
            r.themefile.root.segs() == basedir.segs(),
            r.themefile.root.path.absolute == basedir.path.absolute,
            r.themefile.path.absolute == false,
            r.themefile.path.segs() == seq!["themes"@] + path_segments(name@) + seq![
                "theme.typ"@,
            ],
            r.themefile.path.wf(),
            basedir.wf() ==> r.themefile.root.wf(),
    {
        let mut s = String::from_str("themes/");
        s.append(name);
        s.append("/theme.typ");
        let ghost sv = s@;
        proof {
            reveal_strlit("themes/");
            reveal_strlit("/theme.typ");
            reveal_strlit("themes");
            reveal_strlit("theme.typ");
            assert(!is_abs_str(sv)) by {
                assert(sv[0] == 't');
            }
            let mid = name@ + seq!['/'] + "theme.typ"@;
            assert(sv =~= "themes"@ + seq!['/'] + mid);
            lemma_raw_split_concat("themes"@, mid, '/');
            lemma_raw_split_concat(name@, "theme.typ"@, '/');
            lemma_raw_split_whole("themes"@, '/');
            lemma_raw_split_whole("theme.typ"@, '/');
            assert(crate::text::raw_split(sv, '/') == seq!["themes"@] + (crate::text::raw_split(
                name@,
                '/',
            ) + seq!["theme.typ"@]));
            lemma_nonempty_parts_concat(seq!["themes"@], crate::text::raw_split(name@, '/')
                + seq!["theme.typ"@]);
            lemma_nonempty_parts_concat(crate::text::raw_split(name@, '/'), seq!["theme.typ"@]);
            lemma_nonempty_parts_single("themes"@);
            lemma_nonempty_parts_single("theme.typ"@);
            assert(path_segments(sv) == seq!["themes"@] + (path_segments(name@) + seq![
                "theme.typ"@,
            ]));
            assert(seq!["themes"@] + (path_segments(name@) + seq!["theme.typ"@]) =~= seq![
                "themes"@,
            ] + path_segments(name@) + seq!["theme.typ"@]);
        }
        let themefile = basedir.join(s.as_str());
        let mut owned_name = String::new();
        owned_name.append(name);
        proof {
            assert(owned_name@ =~= name@);
        }
        Theme { basedir: basedir.duplicate(), themefile, name: owned_name }
    }

    /// The place of the theme's principal file, relative to the base
    /// directory.
    pub fn relative_file(&self) -> (r: RootPath)
        ensures
            r.root.segs() == self.themefile.root.segs(),
            r.root.path.absolute == self.themefile.root.path.absolute,
            r.path.absolute == self.themefile.path.absolute,
            r.path.segs() == self.themefile.path.segs(),
    {
        self.themefile.duplicate()
    }

    /// The relative route from the document's directory to the theme's
    /// principal file.
    pub fn relative_to_zine(&self, zine: &ZineFile) -> (r: String)
        requires
            self.themefile.path.segs().len() >= 1,
            zine.file.path.segs().len() >= 1,
        ensures
            r@ == join_parts(
                spec_relative_parts(
                    zine.file.path.segs().drop_last(),
                    self.themefile.path.segs().drop_last(),
                    self.themefile.path.segs().last(),
                ),
                '/',
            ),
    {
        self.themefile.relative_to(&zine.file)
    }

    /// Where a resource of this theme lives, relative to the base directory:
    /// under the theme's own directory.
    pub fn theme_resource_relative_from_basedir(&self, path: &str) -> (r: String)
        ensures
            r@ == "themes/"@ + self.name@ + seq!['/'] + path@,
    {
        let mut r = String::from_str("themes/");
        r.append(self.name.as_str());
        push_char(&mut r, '/');
        r.append(path);
        r
    }

    /// Where a resource named next to the document lives, seen from the
    /// theme's directory: two steps up from the theme directory to the base
    /// directory, then down to the resource — unless the resource path is
    /// itself absolute, which stands on its own.
    pub fn zine_resource_relative_from_theme(&self, path: &str, zine: &ZineFile) -> (r: String)
        ensures
            r@ == spec_zine_resource_from_theme(
                zine.file.path.absolute,
                zine.file.path.segs(),
                path@,
            ),
    {
        let sib = zine.file.sibling(path);
        if sib.path.absolute {
            sib.path.render()
        } else {
            let mut parts: Vec<String> = Vec::new();
            parts.push(String::from_str(".."));
            parts.push(String::from_str(".."));
            let mut i: usize = 0;
            proof {
                assert(parts.deep_view() =~= seq![".."@, ".."@]);
            }
            while i < sib.path.parts.len()
                invariant
                    i <= sib.path.parts.len(),
                    parts.deep_view() == seq![".."@, ".."@] + sib.path.segs().take(i as int),
                decreases sib.path.parts.len() - i,
            {
                let ghost p0 = parts.deep_view();
                let item = sib.path.parts[i].clone();
                parts.push(item);
                proof {
                    assert(parts.deep_view() =~= p0.push(sib.path.segs()[i as int]));
                    assert(parts.deep_view() =~= seq![".."@, ".."@] + sib.path.segs().take(i
                        + 1));
                }
                i += 1;
            }
            proof {
                assert(seq![".."@, ".."@] + sib.path.segs().take(sib.path.segs().len() as int)
                    =~= seq![".."@, ".."@] + sib.path.segs());
            }
            crate::path::render_path(false, &parts)
        }
    }
}

impl RootPath {
    /// The relative route from the theme's directory to this file.
    pub fn relative_to_theme(&self, theme: &Theme) -> (r: String)
        requires
            self.path.segs().len() >= 1,
            theme.themefile.path.segs().len() >= 1,
        ensures
            r@ == join_parts(
                spec_relative_parts(
                    theme.themefile.path.segs().drop_last(),
                    self.path.segs().drop_last(),
                    self.path.segs().last(),
                ),
                '/',
            ),
    {
        let themefile = theme.relative_file();
        self.relative_to(&themefile)
    }
}

} // verus!
