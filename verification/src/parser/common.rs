//! The base path of an OpenAPI document.

use vstd::prelude::*;
use vstd::string::StrSliceExecFns;

verus! {

/// `basepath` without the `/` that it ends with, if it ends with one.
pub open spec fn basepath_formatted(basepath: Seq<char>) -> Seq<char> {
    if basepath.len() > 0 && basepath.last() == '/' {
        basepath.drop_last()
    } else {
        basepath
    }
}

/// `basepath` without the `/` that it ends with, if it ends with one.
pub fn format_basepath(basepath: &str) -> (formatted: &str)
    ensures
        formatted@ == basepath_formatted(basepath@),
{
    let length = basepath.unicode_len();
    if length > 0 && basepath.get_char(length - 1) == '/' {
        basepath.substring_char(0, length - 1)
    } else {
        basepath
    }
}

} // verus!
