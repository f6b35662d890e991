//! A source document inside the project tree, addressed relative to the base
//! directory.

use vstd::prelude::*;
use crate::error::Error;
use crate::frontmatter::{spec_with_typst_header, FrontMatter};
use crate::markup::{
    count_refs, markdown_to_typst_content, refs_fit, spec_transpile, MarkupNode,
};
use crate::path::{
    spec_address, spec_render, spec_sibling, is_abs_str, path_segments, BaseDir, RootPath,
};
use crate::theme::Theme;

verus! {

/// A document on disk inside the base directory.
pub struct ZineFile {
    pub file: RootPath,
}

impl ZineFile {
    /// A document at an already addressed place.
    pub fn new(path: &RootPath) -> (r: ZineFile)
        ensures
            r.file.root.segs() == path.root.segs(),
            r.file.root.path.absolute == path.root.path.absolute,
            r.file.path.absolute == path.path.absolute,
            r.file.path.segs() == path.path.segs(),
    {
        ZineFile { file: path.duplicate() }
    }

    /// A document named relative to the base directory.
    pub fn from_relative(root: &BaseDir, path: &str) -> (r: ZineFile)
        ensures
            r.file.root.segs() == root.segs(),
            r.file.root.path.absolute == root.path.absolute,
            (r.file.path.absolute, r.file.path.segs()) == spec_address(
                root.segs(),
                is_abs_str(path@),
                path_segments(path@),
            ),
            root.wf() ==> r.file.root.wf(),
            r.file.path.wf(),
    {
        ZineFile { file: RootPath::new(root, path) }
    }

    /// A document named by its full path; the base directory's own prefix is
    /// dropped on the way in.
    pub fn from_absolute(root: &BaseDir, path: &str) -> (r: ZineFile)
        ensures
            r.file.root.segs() == root.segs(),
            r.file.root.path.absolute == root.path.absolute,
            (r.file.path.absolute, r.file.path.segs()) == spec_address(
                root.segs(),
                is_abs_str(path@),
                path_segments(path@),
            ),
            root.wf() ==> r.file.root.wf(),
            r.file.path.wf(),
    {
        ZineFile { file: RootPath::new(root, path) }
    }

    /// The document's place, relative to the base directory.
    pub fn relative_file(&self) -> (r: RootPath)
        ensures
            r.root.segs() == self.file.root.segs(),
            r.root.path.absolute == self.file.root.path.absolute,
            r.path.absolute == self.file.path.absolute,
            r.path.segs() == self.file.path.segs(),
    {
        self.file.duplicate()
    }

    /// The directory holding the document, relative to the base directory.
    pub fn relative_dir(&self) -> (r: RootPath)
        requires
            self.file.path.segs().len() >= 1,
        ensures
            r.root.segs() == self.file.root.segs(),
            r.root.path.absolute == self.file.root.path.absolute,
            r.path.absolute == self.file.path.absolute,
            r.path.segs() == self.file.path.segs().drop_last(),
    {
        let mut dir = self.file.duplicate();
        let _dropped = dir.path.parts.pop();
        proof {
            assert(dir.path.segs() =~= self.file.path.segs().drop_last());
        }
        dir
    }

    /// Where a resource named next to the document lives, relative to the
    /// base directory: the document's parent directory followed by the
    /// resource path.
    pub fn zine_resource_relative_from_basedir(&self, path: &str) -> (r: String)
        ensures
            ({
                let sib = spec_sibling(
                    self.file.path.absolute,
                    self.file.path.segs(),
                    is_abs_str(path@),
                    path_segments(path@),
                );
                r@ == spec_render(sib.0, sib.1)
            }),
    {
        let sib = self.file.sibling(path);
        sib.path.render()
    }

    /// The complete target-markup source of the document: the header built
    /// from its metadata and the theme the metadata selects — its first
    /// entry, a single-theme contract — followed by the transpiled body.
    /// Fails exactly where the body's transpilation does, with no partial
    /// output.
    pub fn typst_source(&self, fm: &FrontMatter, body: &Vec<MarkupNode>) -> (r: Result<
        String,
        Error,
    >)
        requires
            fm.themes.len() >= 1,
            self.file.path.segs().len() >= 1,
            count_refs(body@) <= usize::MAX,
            refs_fit(body@),
        ensures
            (r is Ok) == (spec_transpile(body@) is Some),
            r matches Ok(s) ==> spec_transpile(body@) matches Some(t) && s@
                == spec_with_typst_header(
                *fm,
                fm.themes@[0].0@,
                seq!["themes"@] + path_segments(fm.themes@[0].0@) + seq!["theme.typ"@],
                self.file.path.absolute,
                self.file.path.segs(),
            ) + t,
            r matches Err(e) ==> e matches Error::FootnoteConsistency { .. },
    {
        let theme = Theme::new(&self.file.root, self.themes_first_name(fm).as_str());
        let header = fm.with_typst_header(self, &theme);
        match markdown_to_typst_content(body) {
            Ok(content) => {
                let mut out = header;
                out.append(content.as_str());
                Ok(out)
            },
            Err(e) => Err(e),
        }
    }

    /// The name of the first theme entry of the metadata.
    fn themes_first_name(&self, fm: &FrontMatter) -> (r: String)
        requires
            fm.themes.len() >= 1,
        ensures
            r@ == fm.themes@[0].0@,
    {
        fm.themes[0].0.clone()
    }
}

impl RootPath {
    /// The relative route from the document's directory to this file.
    pub fn relative_to_zine(&self, zine: &ZineFile) -> (r: String)
        requires
            self.path.segs().len() >= 1,
            zine.file.path.segs().len() >= 1,
        ensures
            r@ == crate::text::join_parts(
                crate::path::spec_relative_parts(
                    zine.file.path.segs().drop_last(),
                    self.path.segs().drop_last(),
                    self.path.segs().last(),
                ),
                '/',
            ),
    {
        let file = zine.relative_file();
        self.relative_to(&file)
    }
}

} // verus!
