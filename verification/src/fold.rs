//! Case folding.
//!
//! Two texts are compared without regard to case by comparing their lowercase
//! forms. Lowercasing is done by the standard library, whose Unicode tables
//! are not restated here: the result is only given a name.

use vstd::prelude::*;

verus! {

/// The lowercase form of a text, as `str::to_lowercase` computes it. It
/// depends on the characters of the text alone.
pub uninterp spec fn lowercase(text: Seq<char>) -> Seq<char>;

/// Calls `str::to_lowercase`. Trusted: the returned string holds the
/// lowercase form of `text`, which is the value that `lowercase` names.
#[verifier::external_body]
pub(crate) fn lowercased(text: &str) -> (lower: String)
    ensures
        lower@ == lowercase(text@),
{
    text.to_lowercase()
}

} // verus!
