//! Bytes as text.

use vstd::prelude::*;
use vstd::string::StringSliceAdditionalSpecFns;
use vstd::utf8::{encode_utf8, valid_utf8};

verus! {

/// `std::str::from_utf8`: the bytes as a string slice where they are valid
/// UTF-8, an error where they are not. The slice shares the bytes.
#[verifier::external_body]
pub(crate) fn utf8_text<'a>(bytes: &'a [u8]) -> (res: Result<&'a str, std::str::Utf8Error>)
    ensures
        res is Ok <==> valid_utf8(bytes@),
        res matches Ok(s) ==> s.spec_bytes() == bytes@,
{
    std::str::from_utf8(bytes)
}

/// `char::encode_utf8`: the UTF-8 bytes of one character, here copied into
/// a `Vec`.
#[verifier::external_body]
pub(crate) fn char_bytes(c: char) -> (out: Vec<u8>)
    ensures
        out@ == encode_utf8(seq![c]),
{
    let mut buf = [0u8; 4];
    c.encode_utf8(&mut buf).as_bytes().to_vec()
}

} // verus!
