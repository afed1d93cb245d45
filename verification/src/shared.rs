//! Texts that several holders share.

use std::sync::Arc;
use vstd::prelude::*;

verus! {

/// Calls `Arc::clone`. Trusted: both hold the same text.
#[verifier::external_body]
pub(crate) fn share(s: &Arc<str>) -> (r: Arc<str>)
    ensures
        (*r)@ == (**s)@,
{
    Arc::clone(s)
}

/// Calls `Arc::from` on a string. Trusted: the text stays the same.
#[verifier::external_body]
pub(crate) fn shared(s: String) -> (r: Arc<str>)
    ensures
        (*r)@ == s@,
{
    Arc::from(s)
}

/// Calls `Arc::as_ref`. Trusted: it gives the text that is held.
#[verifier::external_body]
pub(crate) fn text_in(s: &Arc<str>) -> (r: &str)
    ensures
        r@ == (**s)@,
{
    s.as_ref()
}

} // verus!
