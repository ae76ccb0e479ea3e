//! Unicode normal forms and the decoding of bytes.
use unicode_normalization::UnicodeNormalization;
use vstd::prelude::*;

verus! {

/// The text that `UnicodeNormalization::nfc` yields: Unicode normal form C.
pub uninterp spec fn nfc_text(s: Seq<char>) -> Seq<char>;

/// The text that `UnicodeNormalization::nfkc` yields: Unicode normal form KC.
pub uninterp spec fn nfkc_text(s: Seq<char>) -> Seq<char>;

/// The text that `String::from_utf8_lossy` makes of bytes.
pub uninterp spec fn lossy_text(bytes: Seq<u8>) -> Seq<char>;

/// The text that `str::to_lowercase` makes of a text: Unicode lower case.
pub uninterp spec fn lower_text(s: Seq<char>) -> Seq<char>;

/// `UnicodeNormalization::nfc` of a text, as [`nfc_text`] names it.
#[verifier::external_body]
pub(crate) fn nfc(s: &str) -> (r: String)
    ensures
        r@ == nfc_text(s@),
{
    s.nfc().collect()
}

/// `UnicodeNormalization::nfkc` of a text, as [`nfkc_text`] names it.
#[verifier::external_body]
pub(crate) fn nfkc(s: &str) -> (r: String)
    ensures
        r@ == nfkc_text(s@),
{
    s.nfkc().collect()
}

/// `String::from_utf8_lossy` of bytes, as [`lossy_text`] names it. Bytes that
/// encode a text in UTF-8 give that text.
#[verifier::external_body]
pub(crate) fn decode_lossy(bytes: &[u8]) -> (r: String)
    ensures
        r@ == lossy_text(bytes@),
        vstd::utf8::valid_utf8(bytes@) ==> r@ == vstd::utf8::decode_utf8(bytes@),
{
    String::from_utf8_lossy(bytes).into_owned()
}

/// `str::to_lowercase` of a text, as [`lower_text`] names it.
#[verifier::external_body]
pub(crate) fn lower(s: &str) -> (r: String)
    ensures
        r@ == lower_text(s@),
{
    s.to_lowercase()
}

} // verus!
