//! Functions of the standard library whose results the library relies on without proof.

use vstd::prelude::*;
use vstd::utf8::*;

verus! {

/// What `char::is_alphanumeric` answers for `c`: whether `c` has the Unicode property
/// `Alphabetic` or one of the general categories of numbers.
pub uninterp spec fn unicode_alphanumeric(c: char) -> bool;

/// `char::is_alphanumeric`: its answer depends on the character alone. Which characters it
/// accepts is not stated.
pub assume_specification[ char::is_alphanumeric ](c: char) -> (r: bool)
    ensures
        r == unicode_alphanumeric(c),
;

/// The text that `String::from_utf8_lossy` makes of `bytes`: what they encode, with `U+FFFD` in
/// place of what is not UTF-8.
pub uninterp spec fn utf8_lossy(bytes: Seq<u8>) -> Seq<char>;

/// `String::from_utf8_lossy`: its result depends on the bytes alone, and bytes that are UTF-8 are
/// decoded without loss. How many replacement characters stand for other bytes is not stated.
#[verifier::external_body]
pub(crate) fn from_utf8_lossy(bytes: &Vec<u8>) -> (r: String)
    ensures
        r@ == utf8_lossy(bytes@),
        valid_utf8(bytes@) ==> r@ == decode_utf8(bytes@),
{
    String::from_utf8_lossy(bytes).into_owned()
}

} // verus!
