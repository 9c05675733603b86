//! Terminal styling of the tool's output.

use vstd::prelude::*;
use vstd::string::StringExecFns;

verus! {

/// `s` in bold, as a command to type.
pub fn cmd(s: &str) -> (r: String)
    ensures
        r@ == "\x1b[1m"@ + s@ + "\x1b[0m"@,
{
    let mut r = String::from_str("\x1b[1m");
    r.append(s);
    r.append("\x1b[0m");
    r
}

} // verus!
