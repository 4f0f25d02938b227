//! What the store needs of the standard library's strings beyond what `vstd`
//! specifies.

use vstd::prelude::*;

verus! {

/// Tells whether `text` starts with `prefix`, with `str::starts_with`.
///
/// Assumed, not proved: the answer is `true` exactly when the characters of
/// `prefix` are the first characters of `text`, which is what the standard
/// library documents for a string pattern.
#[verifier::external_body]
pub(crate) fn starts_with(text: &str, prefix: &str) -> (r: bool)
    ensures
        r == prefix@.is_prefix_of(text@),
{
    text.starts_with(prefix)
}

} // verus!
