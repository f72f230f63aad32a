//! Classification of the ASCII bytes that slugs are built from, and the
//! correspondence between ASCII bytes and the characters of the returned
//! strings.

use vstd::prelude::*;

verus! {

pub const DASH: u8 = '-' as u8;

pub const SPACE: u8 = ' ' as u8;

pub const UNDERSCORE: u8 = '_' as u8;

pub const DOT: u8 = '.' as u8;

/// ASCII lowercase letters and digits: the bytes that both modes emit
/// unchanged.
pub open spec fn is_lower_or_digit(x: u8) -> bool {
    'a' as u8 <= x <= 'z' as u8 || '0' as u8 <= x <= '9' as u8
}

/// ASCII uppercase letters.
pub open spec fn is_upper(x: u8) -> bool {
    'A' as u8 <= x <= 'Z' as u8
}

/// The lowercase equivalent of an ASCII uppercase letter, by the byte-wise
/// shift of 32; only ASCII letters are ever case-shifted.
pub open spec fn lower_byte(x: u8) -> u8 {
    (x + 32) as u8
}

/// The whitespace class of the lenient mode: space and underscore collapse
/// into one another.
pub open spec fn is_ws_byte(x: u8) -> bool {
    x == SPACE || x == UNDERSCORE
}

/// The characters that stand for a sequence of ASCII bytes, one per byte.
pub open spec fn chars_of_bytes(s: Seq<u8>) -> Seq<char> {
    s.map(|_i: int, b: u8| b as char)
}

/// Relies on `String::from_utf8`: a sequence of bytes below 128 is valid
/// UTF-8 and decodes to the characters with the same code points, one per
/// byte.
#[verifier::external_body]
pub(crate) fn ascii_bytes_to_string(v: Vec<u8>) -> (r: String)
    requires
        forall|i: int| 0 <= i < v@.len() ==> v@[i] < 128,
    ensures
        r@ == chars_of_bytes(v@),
{
    String::from_utf8(v).unwrap_or_default()
}

} // verus!
