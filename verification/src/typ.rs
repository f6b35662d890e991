//! Target-markup basics: the output mode of a compilation and the escaping
//! rule applied to plain text before it enters the target markup.

use vstd::prelude::*;
use crate::text::{replace_all, spec_replace};

verus! {

/// What a compiled document is rendered to.
#[derive(Copy, Clone, Debug, PartialEq, Eq, Structural)]
pub enum CompileMode {
    Png,
    Pdf,
}

/// The escaping rule for plain content bound for the typesetting engine:
/// every `@` becomes `\@`, so that the text cannot be read as a reference.
pub open spec fn spec_typst_escape(s: Seq<char>) -> Seq<char> {
    spec_replace(s, seq!['@'], seq!['\\', '@'])
}

/// Sanitizes content for the typesetting engine by escaping `@`.
pub fn typst_escape(s: &str) -> (r: String)
    ensures
        r@ == spec_typst_escape(s@),
{
    proof {
        reveal_strlit("@");
        reveal_strlit("\\@");
        assert("@"@ =~= seq!['@']);
        assert("\\@"@ =~= seq!['\\', '@']);
    }
    replace_all(s, "@", "\\@")
}

} // verus!
