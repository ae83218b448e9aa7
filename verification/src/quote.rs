//! The quote of the day: the only computation is the plain-text
//! framing of the upstream's affirmation.

use vstd::prelude::*;
use vstd::string::StringExecFns;

verus! {

/// Frames the fetched affirmation as the plain-text response body.
pub fn quote_message(text: &str) -> (r: String)
    ensures
        r@ == "Quote of the day: "@ + text@,
{
    let prefix = String::from_str("Quote of the day: ");
    prefix.concat(text)
}

} // verus!
