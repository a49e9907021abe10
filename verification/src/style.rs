//! The one question the pipeline asks of a style string: does it declare
//! a fill color?  The style text itself is opaque to the library and is
//! carried through to the rendering collaborator unchanged.

use vstd::prelude::*;

verus! {

/// Whether a style string matches the fill-color pattern
/// `fill: rgb(r, g, b);`.  The answer depends on the text alone.
pub uninterp spec fn fill_match(s: Seq<char>) -> bool;

/// Relies on regex::Regex::is_match with the fill-color pattern: true
/// exactly when the style text declares `fill: rgb(...)`.
#[verifier::external_body]
pub(crate) fn style_has_fill(style: &str) -> (r: bool)
    ensures
        r == fill_match(style@),
{
    let re = regex::Regex::new(r"fill:\s*rgb\((\d+),\s*(\d+),\s*(\d+)\);").unwrap();
    re.is_match(style)
}

} // verus!
