//! Error kinds of the library core.

use vstd::prelude::*;

verus! {

/// What can go wrong in the core.
///
/// Path and front-matter failures are recoverable at the per-document
/// boundary; a footnote consistency fault is an internal invariant violation
/// that aborts the transpilation of the document without partial output.
#[derive(Clone, Debug, PartialEq, Eq)]
pub enum Error {
    /// No ancestor directory holds the two conventional subdirectories.
    NoBaseDir { path: String },
    /// The metadata block is unterminated: no closing delimiter follows it.
    FrontMatterParse {},
    /// The footnote counter and the collected definitions disagree.
    FootnoteConsistency { counted: usize, collected: usize },
}

impl Error {
    /// A human-readable description of the error.
    pub fn message(&self) -> (r: String)
        ensures
            (self matches Error::NoBaseDir { path } ==> r@ == (
            "No basedir (containing content/themes folders) found in parent tree of "@
                + path@)),
            (self matches Error::FrontMatterParse {  } ==> r@ ==
            "Front matter block is missing its closing delimiter"@),
            (self matches Error::FootnoteConsistency { .. } ==> r@ ==
            "Footnote references and footnote definitions disagree"@),
    {
        match self {
            Error::NoBaseDir { path } => {
                let mut r = String::from_str(
                    "No basedir (containing content/themes folders) found in parent tree of ",
                );
                r.append(path.as_str());
                r
            },
            Error::FrontMatterParse {  } => String::from_str(
                "Front matter block is missing its closing delimiter",
            ),
            Error::FootnoteConsistency { .. } => String::from_str(
                "Footnote references and footnote definitions disagree",
            ),
        }
    }
}

} // verus!
