//! Which file names deserve recompilation when they change: the outputs of
//! a run and hidden files are left alone.

use vstd::prelude::*;
use crate::text::{ends_with, spec_ends_with, spec_starts_with, starts_with};

verus! {

/// Whether a file of this name is worth watching beside a target-markup
/// source: not hidden, and not a rendered output.
pub fn is_not_pdf(name: &str) -> (r: bool)
    ensures
        r == (!spec_starts_with(name@, "."@) && !spec_ends_with(name@, "pdf"@)),
{
    !starts_with(name, ".") && !ends_with(name, "pdf")
}

/// Whether a file of this name is worth watching beside a markdown source:
/// not hidden, not a rendered output, and not the derived target-markup
/// file either.
pub fn is_not_pdf_or_typ(name: &str) -> (r: bool)
    ensures
        r == (!spec_starts_with(name@, "."@) && !spec_ends_with(name@, "pdf"@) && !spec_ends_with(
            name@,
            "typ"@,
        )),
{
    !starts_with(name, ".") && !ends_with(name, "pdf") && !ends_with(name, "typ")
}

} // verus!
