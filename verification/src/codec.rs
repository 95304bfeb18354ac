//! The byte-level work of reading and writing text in a named encoding.
//!
//! Encoding detection and conversion are done by `chardetng` and
//! `encoding_rs`; this module is the only place that calls them. Each call has
//! a name for its result, so the rest of the library can state exactly what it
//! does with that result.

use vstd::prelude::*;
use vstd::utf8::{valid_utf8, decode_utf8, encode_utf8};

verus! {

/// Which encoding `encoding_rs::Encoding::for_label` finds for a label, by the
/// name of that encoding.
pub uninterp spec fn encoding_label_lookup(label: Seq<char>) -> Option<Seq<char>>;

/// What `chardetng` guesses for a complete byte stream, by encoding name.
pub uninterp spec fn chardet_guess(bytes: Seq<u8>) -> Seq<char>;

/// What `Encoding::decode` gives for the encoding a label names: the text, and
/// whether malformed input was replaced.
pub uninterp spec fn encoding_decoded(label: Seq<char>, bytes: Seq<u8>) -> (Seq<char>, bool);

/// What `Encoding::encode` gives for the encoding a label names.
pub uninterp spec fn encoding_encoded(label: Seq<char>, text: Seq<char>) -> Seq<u8>;

/// Whether the bytes start with one of the byte-order marks `encoding_rs`
/// sniffs for.
pub open spec fn starts_with_bom(bytes: Seq<u8>) -> bool {
    ||| bytes.len() >= 3 && bytes[0] == 0xEF && bytes[1] == 0xBB && bytes[2] == 0xBF
    ||| bytes.len() >= 2 && bytes[0] == 0xFF && bytes[1] == 0xFE
    ||| bytes.len() >= 2 && bytes[0] == 0xFE && bytes[1] == 0xFF
}

/// Encodings whose output encoding is UTF-8: encoding to them writes the
/// text's UTF-8 bytes.
pub open spec fn writes_utf8(name: Seq<char>) -> bool {
    name == "UTF-8"@ || name == "UTF-16LE"@ || name == "UTF-16BE"@ || name == "replacement"@
}

/// The longest input the conversions accept: below this, `encoding_rs`'s
/// buffer-size arithmetic cannot overflow `usize` (it panics when it would).
pub open spec fn convertible_len(n: nat) -> bool {
    n <= usize::MAX / 16
}

/// Whether `n` characters or bytes are few enough to convert.
pub fn fits_conversion(n: usize) -> (r: bool)
    ensures
        r == convertible_len(n as nat),
{
    n <= usize::MAX / 16
}

pub open spec fn is_utf_name(label: Seq<char>) -> bool {
    label == "UTF-8"@ || label == "UTF-16LE"@ || label == "UTF-16BE"@
}

/// The encoding a label names, by name. `UTF-8`, `UTF-16LE` and `UTF-16BE`
/// are labels of the encodings of those names (the Encoding Standard lists
/// them, and lookup ignores ASCII case); any other label is looked up.
pub open spec fn label_lookup(label: Seq<char>) -> Option<Seq<char>> {
    if label == "UTF-8"@ {
        Some("UTF-8"@)
    } else if label == "UTF-16LE"@ {
        Some("UTF-16LE"@)
    } else if label == "UTF-16BE"@ {
        Some("UTF-16BE"@)
    } else {
        encoding_label_lookup(label)
    }
}

/// What decoding gives: well-formed UTF-8 without a byte-order mark, read as
/// UTF-8, is its own characters without errors; anything else is as named.
pub open spec fn decoded_spec(label: Seq<char>, bytes: Seq<u8>) -> (Seq<char>, bool) {
    if label_lookup(label) == Some("UTF-8"@) && valid_utf8(bytes) && !starts_with_bom(bytes) {
        (decode_utf8(bytes), false)
    } else {
        encoding_decoded(label, bytes)
    }
}

/// What encoding gives: an encoding whose output encoding is UTF-8 writes the
/// text's UTF-8 bytes; anything else is as named.
pub open spec fn encoded_spec(label: Seq<char>, text: Seq<char>) -> Seq<u8> {
    if label_lookup(label) is Some && writes_utf8(label_lookup(label)->0) {
        encode_utf8(text)
    } else {
        encoding_encoded(label, text)
    }
}

/// `Encoding::for_label(label.as_bytes()).map(Encoding::name)`.
///
/// Claims that the name found is the lookup's result, and that an encoding's
/// name is itself a label for it. Nothing is claimed of the `replacement`
/// encoding's name.
#[verifier::external_body]
pub(crate) fn encoding_for_label(label: &str) -> (r: Option<&'static str>)
    ensures
        r matches Some(n) ==> label_lookup(label@) == Some(n@),
        r is None ==> label_lookup(label@) is None,
        !is_utf_name(label@) ==> encoding_label_lookup(label@) == (match r {
            Some(n) => Some(n@),
            None => None,
        }),
        r matches Some(n) ==> (n@ != "replacement"@ ==> label_lookup(n@) == Some(n@)),
{
    encoding_rs::Encoding::for_label(label.as_bytes()).map(|e| e.name())
}

/// `chardetng`: a fresh `EncodingDetector` fed the whole stream, then
/// `guess(None, true)`, by name. The guess is never the `replacement`
/// encoding, so its name is a label for it.
#[verifier::external_body]
pub(crate) fn guess_encoding(bytes: &[u8]) -> (r: &'static str)
    ensures
        r@ == chardet_guess(bytes@),
        label_lookup(r@) == Some(r@),
{
    let mut detector = chardetng::EncodingDetector::new();
    detector.feed(bytes, true);
    detector.guess(None, true).name()
}

/// `std::str::from_utf8(bytes).is_ok()`: whether the bytes are well-formed UTF-8.
#[verifier::external_body]
pub(crate) fn is_utf8(bytes: &[u8]) -> (r: bool)
    ensures
        r == valid_utf8(bytes@),
{
    std::str::from_utf8(bytes).is_ok()
}

/// `Encoding::decode` (BOM sniffing included) for the encoding `label` names.
/// Claims the result is `decoded_spec`.
#[verifier::external_body]
pub(crate) fn decode_labelled(label: &str, bytes: &[u8]) -> (r: (String, bool))
    requires
        label_lookup(label@) is Some,
        convertible_len(bytes@.len()),
    ensures
        (r.0@, r.1) == decoded_spec(label@, bytes@),
        !(label_lookup(label@) == Some("UTF-8"@) && valid_utf8(bytes@) && !starts_with_bom(bytes@))
            ==> (r.0@, r.1) == encoding_decoded(label@, bytes@),
{
    let (text, _, had_errors) = encoding_rs::Encoding::for_label(label.as_bytes()).unwrap().decode(
        bytes,
    );
    (text.into_owned(), had_errors)
}

/// `Encoding::encode` for the encoding `label` names. Claims the result is
/// `encoded_spec`.
#[verifier::external_body]
pub(crate) fn encode_labelled(label: &str, text: &str) -> (r: Vec<u8>)
    requires
        label_lookup(label@) is Some,
        convertible_len(text@.len()),
    ensures
        r@ == encoded_spec(label@, text@),
        !(label_lookup(label@) is Some && writes_utf8(label_lookup(label@)->0)) ==> r@
            == encoding_encoded(label@, text@),
{
    let (bytes, _, _) = encoding_rs::Encoding::for_label(label.as_bytes()).unwrap().encode(text);
    bytes.into_owned()
}

} // verus!
