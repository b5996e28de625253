//! Lines as text: UTF-8 validity, and strings as the bytes that encode them.

use vstd::prelude::*;
use vstd::slice::slice_to_vec;
use vstd::utf8::{decode_utf8, encode_utf8, encode_utf8_decode_utf8, valid_utf8};
use vstd::string::StringSliceAdditionalSpecFns;

verus! {

/// `std::str::Utf8Error`, which says where bytes stop being UTF-8. Nothing
/// is read from it.
#[verifier::external_type_specification]
#[verifier::external_body]
pub struct ExUtf8Error(std::str::Utf8Error);

/// `std::str::from_utf8` reads bytes as text. It succeeds exactly on valid
/// UTF-8, and the text it hands back is made of the bytes it was given.
pub assume_specification<'a>[ std::str::from_utf8 ](v: &'a [u8]) -> (outcome: Result<
    &'a str,
    std::str::Utf8Error,
>)
    ensures
        match outcome {
            Ok(text) => valid_utf8(v@) && text.spec_bytes() == v@,
            Err(_) => !valid_utf8(v@),
        },
;

/// The views of a vector of strings.
pub open spec fn string_views(strings: Seq<String>) -> Seq<Seq<char>> {
    strings.map_values(|text: String| text@)
}

/// The UTF-8 encodings of a sequence of texts.
pub open spec fn encoded(texts: Seq<Seq<char>>) -> Seq<Seq<u8>> {
    texts.map_values(|text: Seq<char>| encode_utf8(text))
}

/// Reads a line as text, where its bytes are valid UTF-8.
pub fn as_text(line: &Vec<u8>) -> (text: Option<&str>)
    ensures
        text is Some <==> valid_utf8(line@),
        text matches Some(t) ==> t@ == decode_utf8(line@),
{
    match std::str::from_utf8(line.as_slice()) {
        Ok(text) => {
            proof {
                encode_utf8_decode_utf8(text@);
            }
            Some(text)
        },
        Err(_) => None,
    }
}

/// The bytes that encode each string of a list.
pub fn encode_all(texts: &Vec<String>) -> (lines: Vec<Vec<u8>>)
    ensures
        crate::line::line_views(lines@) == encoded(string_views(texts@)),
{
    let mut lines: Vec<Vec<u8>> = Vec::new();
    let mut i: usize = 0;
    while i < texts.len()
        invariant
            i <= texts.len(),
            lines.len() == i,
            forall|k: int| 0 <= k < i ==> (#[trigger] lines[k])@ == encode_utf8(texts[k]@),
        decreases texts.len() - i,
    {
        lines.push(slice_to_vec(texts[i].as_str().as_bytes()));
        i += 1;
    }
    assert(crate::line::line_views(lines@) =~= encoded(string_views(texts@)));
    lines
}

} // verus!
