//! What the command surface decides about a document before handing it on:
//! the action asked for and the source kind read off the file extension.

use vstd::prelude::*;
use crate::path::{last_dot, lemma_last_dot_value, path_segments, PurePath};
use crate::text::{chars_range, str_eq};

verus! {

/// What the caller asks for.
#[derive(Copy, Clone, Debug, PartialEq, Eq, Structural)]
pub enum Action {
    Compile,
    Watch,
}

/// The kind of a source document.
#[derive(Copy, Clone, Debug, PartialEq, Eq, Structural)]
pub enum SourceType {
    Markdown,
    Typst,
}

/// The extension of a path: what follows the final component's last dot not
/// in leading position; a path without a final file name has none.
pub open spec fn spec_extension(s: Seq<char>) -> Option<Seq<char>> {
    let segs = path_segments(s);
    if segs.len() == 0 || segs.last() == "."@ || segs.last() == ".."@ {
        None
    } else {
        let f = segs.last();
        let d = last_dot(f);
        if d >= 1 {
            Some(f.skip(d + 1))
        } else {
            None
        }
    }
}

impl SourceType {
    /// Reads the source kind off a file's extension. Only markdown and
    /// target-markup sources exist.
    pub fn from_ext(path: &str) -> (r: SourceType)
        requires
            spec_extension(path@) matches Some(e) && (e == "md"@ || e == "typ"@),
        ensures
            spec_extension(path@) matches Some(e) && r == (if e == "md"@ {
                SourceType::Markdown
            } else {
                SourceType::Typst
            }),
    {
        let p = PurePath::parse(path);
        let n = p.parts.len();
        proof {
            reveal_strlit(".");
            reveal_strlit("..");
            if n == 0 {
                assert(spec_extension(path@) is None);
            }
        }
        let name: &String = &p.parts[n - 1];
        let nl = name.as_str().unicode_len();
        proof {
            assert(nl >= 1) by {
                assert(crate::path::seg_ok(p.segs()[n - 1]));
            }
        }
        let mut j: usize = nl - 1;
        while j >= 1 && name.as_str().get_char(j) != '.'
            invariant
                0 <= j < nl,
                nl == name@.len(),
                forall|k: int| j < k < nl ==> name@[k] != '.',
            decreases j,
        {
            j -= 1;
        }
        let ghost d = if j >= 1 {
            j as int
        } else {
            -1
        };
        proof {
            lemma_last_dot_value(name@, nl - 1, d);
            assert(p.segs().last() == name@);
        }
        let ext = chars_range(name.as_str(), j + 1, nl);
        proof {
            assert(ext@ =~= name@.skip(d + 1));
        }
        if str_eq(ext.as_str(), "md") {
            SourceType::Markdown
        } else {
            proof {
                assert(ext@ == "typ"@);
            }
            SourceType::Typst
        }
    }
}

} // verus!
