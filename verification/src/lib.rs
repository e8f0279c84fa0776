pub mod built_in;
pub mod env;
pub mod eval;
pub mod laws;
pub mod parser;
pub mod rat;
pub mod sexp;

use vstd::prelude::*;

verus! {

/// Decides whether a byte is one of the punctuation characters that may appear
/// in a symbol besides ASCII letters and digits.
pub open spec fn is_extended_char(c: u8) -> bool {
    c == 33 || c == 36 || c == 37 || c == 38 || c == 42 || c == 43 || c == 45
        || c == 46 || c == 47 || c == 58 || c == 60 || c == 61 || c == 62
        || c == 63 || c == 64 || c == 94 || c == 95 || c == 126
}

/// Tests whether a byte is one of the punctuation characters allowed in symbols.
pub fn is_extended(chr: u8) -> (r: bool)
    ensures
        r == is_extended_char(chr),
{
    chr == 33 || chr == 36 || chr == 37 || chr == 38 || chr == 42 || chr == 43
        || chr == 45 || chr == 46 || chr == 47 || chr == 58 || chr == 60
        || chr == 61 || chr == 62 || chr == 63 || chr == 64 || chr == 94
        || chr == 95 || chr == 126
}

} // verus!
