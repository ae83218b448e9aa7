//! The credential check behind every protected endpoint: a fixed
//! username/password pair, compared exactly.

use vstd::prelude::*;
use crate::text::str_eq;

verus! {

pub open spec fn view_opt_str(o: Option<&str>) -> Option<Seq<char>> {
    match o {
        Some(p) => Some(p@),
        None => None,
    }
}

/// Whether the supplied credentials are the fixed pair the gateway
/// accepts: user and password must both read `admin`, and a missing
/// password never passes.
pub open spec fn spec_credentials_ok(user: Seq<char>, pass: Option<Seq<char>>) -> bool {
    user == "admin"@ && (match pass {
        Some(p) => p == "admin"@,
        None => false,
    })
}

pub fn check_credentials(user: &str, pass: Option<&str>) -> (r: bool)
    ensures
        r == spec_credentials_ok(user@, view_opt_str(pass)),
{
    match pass {
        None => false,
        Some(p) => {
            let user_ok = str_eq(user, "admin");
            let pass_ok = str_eq(p, "admin");
            user_ok && pass_ok
        },
    }
}

} // verus!
