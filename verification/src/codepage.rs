//! The legacy code page of device catalogs and parameter images.

use vstd::prelude::*;

use crate::bytes::extend;
use crate::text::{bytes_of_chars, chars_of, is_ascii_text, utf8_text};

verus! {

/// Longest input that is decoded: a machine limit, below which a buffer for the
/// text can be addressed.
pub const MAX_CODEPAGE_INPUT: usize = usize::MAX / 128;

/// What `encoding_rs` decodes from GBK bytes, and whether it met a malformed
/// sequence.
pub uninterp spec fn gbk_decoded(bytes: Seq<u8>) -> (Seq<char>, bool);

/// What `encoding_rs` encodes a text of one character to in GBK, and whether GBK
/// lacks the character.
pub uninterp spec fn gbk_char(letter: char) -> (Seq<u8>, bool);

/// Decodes with `encoding_rs::GBK.decode_without_bom_handling`, which depends on
/// the bytes alone.
#[verifier::external_body]
fn decode_gbk(bytes: &[u8]) -> (decoded: (String, bool))
    requires
        bytes@.len() <= MAX_CODEPAGE_INPUT,
    ensures
        (decoded.0@, decoded.1) == gbk_decoded(bytes@),
{
    let (text, malformed) = encoding_rs::GBK.decode_without_bom_handling(bytes);
    (text.into_owned(), malformed)
}

/// Encodes a text of one character with `encoding_rs::GBK.encode`, which depends
/// on the character alone. An ASCII character is its own encoding.
#[verifier::external_body]
fn encode_char(letter: char) -> (encoded: (Vec<u8>, bool))
    ensures
        (encoded.0@, encoded.1) == gbk_char(letter),
        is_ascii_text(seq![letter]) ==> encoded.0@ == seq![letter as u8] && !encoded.1,
{
    let mut buffer = [0_u8; 4];
    let (bytes, _, unmappable) = encoding_rs::GBK.encode(letter.encode_utf8(&mut buffer));
    (bytes.into_owned(), unmappable)
}

/// The GBK bytes of a character, and whether GBK lacks it.
pub open spec fn encoded_char(letter: char) -> (Seq<u8>, bool) {
    if is_ascii_text(seq![letter]) {
        (seq![letter as u8], false)
    } else {
        gbk_char(letter)
    }
}

/// The GBK bytes of a text, and whether GBK lacks one of its characters. GBK has
/// no state, so that a text is encoded character by character.
pub open spec fn gbk_encoded(text: Seq<char>) -> (Seq<u8>, bool)
    decreases text.len(),
{
    if text.len() == 0 {
        (Seq::empty(), false)
    } else {
        let start = gbk_encoded(text.drop_last());
        let last = encoded_char(text.last());
        (start.0 + last.0, start.1 || last.1)
    }
}

/// A text of ASCII characters is its own encoding.
pub proof fn law_ascii_is_encoded_verbatim(text: Seq<char>)
    requires
        is_ascii_text(text),
    ensures
        gbk_encoded(text) == (bytes_of_chars(text), false),
    decreases text.len(),
{
    if text.len() == 0 {
        assert(bytes_of_chars(text) =~= Seq::<u8>::empty());
    } else {
        let start = text.drop_last();
        assert(forall|i: int| 0 <= i < start.len() ==> start[i] == #[trigger] text[i]);
        assert(is_ascii_text(start));
        law_ascii_is_encoded_verbatim(start);
        assert(is_ascii_text(seq![text.last()]));
        assert(bytes_of_chars(text) =~= bytes_of_chars(start) + seq![text.last() as u8]);
    }
}

/// Encodes a text in GBK.
pub(crate) fn encode_gbk(text: &str) -> (encoded: (Vec<u8>, bool))
    ensures
        (encoded.0@, encoded.1) == gbk_encoded(text@),
{
    let letters: Vec<char> = chars_of(text);
    let mut bytes: Vec<u8> = Vec::new();
    let mut lacking: bool = false;
    let mut i: usize = 0;
    while i < letters.len()
        invariant
            i <= letters@.len(),
            letters@ == text@,
            (bytes@, lacking) == gbk_encoded(text@.take(i as int)),
        decreases letters@.len() - i,
    {
        let (encoded, unmappable) = encode_char(letters[i]);
        extend(&mut bytes, encoded.as_slice());
        lacking = lacking || unmappable;
        i += 1;
        proof {
            let now = text@.take(i as int);
            assert(now.drop_last() =~= text@.take(i - 1));
            assert(now.last() == text@[i - 1]);
        }
    }
    assert(text@.take(i as int) =~= text@);
    (bytes, lacking)
}

/// The text of bytes that are UTF-8, or else GBK with the given decoding.
pub open spec fn text_with_fallback(bytes: Seq<u8>, legacy: (Seq<char>, bool)) -> Option<
    Seq<char>,
> {
    if vstd::utf8::valid_utf8(bytes) {
        Some(vstd::utf8::decode_utf8(bytes))
    } else if legacy.1 {
        None
    } else {
        Some(legacy.0)
    }
}

/// The text of bytes that are UTF-8, or else GBK.
pub open spec fn catalog_text(bytes: Seq<u8>) -> Option<Seq<char>> {
    text_with_fallback(bytes, gbk_decoded(bytes))
}

/// Chooses between the UTF-8 text of bytes and a GBK decoding of them.
pub fn choose_text(bytes: &[u8], legacy: (String, bool)) -> (text: Option<String>)
    ensures
        match (text, text_with_fallback(bytes@, (legacy.0@, legacy.1))) {
            (Some(text), Some(expected)) => text@ == expected,
            (None, None) => true,
            _ => false,
        },
{
    match utf8_text(bytes) {
        Some(text) => Some(text),
        None => {
            let (text, malformed) = legacy;
            if malformed {
                None
            } else {
                Some(text)
            }
        },
    }
}

/// Decodes bytes that are UTF-8, or else GBK.
pub fn decode_catalog_text(bytes: &[u8]) -> (text: Option<String>)
    requires
        bytes@.len() <= MAX_CODEPAGE_INPUT,
    ensures
        match (text, catalog_text(bytes@)) {
            (Some(text), Some(expected)) => text@ == expected,
            (None, None) => true,
            _ => false,
        },
{
    choose_text(bytes, decode_gbk(bytes))
}

} // verus!
