//! Exit codes.
use vstd::prelude::*;

verus! {

/// Everything worked.
pub const OK: u8 = 0;

/// Something went wrong at run time.
pub const FAILURE: u8 = 1;

/// The command line was wrong.
pub const USAGE: u8 = 2;

/// The exit code for a command line that did not parse: the parser's own where it is one.
pub fn parse_failure(code: i32) -> (r: u8)
    ensures
        r == (if 0 <= code <= 255 {
            code as int
        } else {
            USAGE as int
        }),
{
    if 0 <= code && code <= 255 {
        code as u8
    } else {
        USAGE
    }
}

} // verus!
