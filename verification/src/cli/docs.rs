//! The documentation site `flash docs` serves.

use vstd::prelude::*;
use crate::bytes::str_eq;

verus! {

/// The content type served for a file with extension `ext`.
pub open spec fn content_type(ext: Option<Seq<char>>) -> Seq<char> {
    match ext {
        Some(e) => if e == "html"@ {
            "text/html; charset=utf-8"@
        } else if e == "css"@ {
            "text/css"@
        } else if e == "js"@ {
            "application/javascript"@
        } else if e == "json"@ {
            "application/json"@
        } else if e == "svg"@ {
            "image/svg+xml"@
        } else if e == "png"@ {
            "image/png"@
        } else {
            "application/octet-stream"@
        },
        None => "application/octet-stream"@,
    }
}

/// The content type for a file with extension `ext` (none where the file
/// has none, or it is not UTF-8).
pub fn content_type_for(ext: Option<&str>) -> (s: &'static str)
    ensures
        s@ == content_type(match ext {
            Some(e) => Some(e@),
            None => None,
        }),
{
    match ext {
        Some(e) => {
            if str_eq(e, "html") {
                "text/html; charset=utf-8"
            } else if str_eq(e, "css") {
                "text/css"
            } else if str_eq(e, "js") {
                "application/javascript"
            } else if str_eq(e, "json") {
                "application/json"
            } else if str_eq(e, "svg") {
                "image/svg+xml"
            } else if str_eq(e, "png") {
                "image/png"
            } else {
                "application/octet-stream"
            }
        },
        None => "application/octet-stream",
    }
}

} // verus!
