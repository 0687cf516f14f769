//! Calls into `encoding_rs` and into the parts of std that vstd leaves
//! unspecified: UTF-8 validation and lossy decoding, Windows-1252 decoding
//! and encoding, and collecting characters into a `String`. Those functions
//! are trusted, and each doc comment says what is claimed; [`chars_of`] is
//! verified against vstd's specification of `str::chars`.

use vstd::prelude::*;
use vstd::utf8::*;

verus! {

/// What `String::from_utf8_lossy` yields for the given bytes.
pub uninterp spec fn utf8_lossy_decoded(bytes: Seq<u8>) -> Seq<char>;

/// The text that `encoding_rs::WINDOWS_1252.decode` yields for the given
/// bytes (BOM sniffing included).
pub uninterp spec fn windows_1252_decoded(bytes: Seq<u8>) -> Seq<char>;

/// The bytes and the "had unmappable characters" flag that
/// `encoding_rs::WINDOWS_1252.encode` yields for the given text.
pub uninterp spec fn windows_1252_encoded(text: Seq<char>) -> (Seq<u8>, bool);

/// Whether the bytes start with a byte order mark that `encoding_rs` sniffs
/// when decoding (UTF-8 `EF BB BF`, UTF-16LE `FF FE`, UTF-16BE `FE FF`).
pub open spec fn sniffed_bom(b: Seq<u8>) -> bool {
    ||| (b.len() >= 3 && b[0] == 0xefu8 && b[1] == 0xbbu8 && b[2] == 0xbfu8)
    ||| (b.len() >= 2 && b[0] == 0xffu8 && b[1] == 0xfeu8)
    ||| (b.len() >= 2 && b[0] == 0xfeu8 && b[1] == 0xffu8)
}

/// Every ASCII character of `text` occurs as a byte of `bytes`.
pub open spec fn ascii_from(text: Seq<char>, bytes: Seq<u8>) -> bool {
    forall|j: int|
        0 <= j < text.len() && (#[trigger] text[j] as u32) < 0x80 ==> bytes.contains(
            text[j] as u32 as u8,
        )
}

/// `std::str::from_utf8(bytes).is_ok()`: true exactly when the bytes are
/// well-formed UTF-8 (vstd's `valid_utf8`).
#[verifier::external_body]
pub fn utf8_valid(bytes: &[u8]) -> (r: bool)
    ensures
        r == valid_utf8(bytes@),
{
    std::str::from_utf8(bytes).is_ok()
}

/// `String::from_utf8_lossy(bytes)`, as characters. Claimed: the result is the
/// named one; on well-formed input it is the decoded text (the documentation
/// says the input is returned unchanged then); ASCII characters of the result
/// come only from the same ASCII bytes (malformed sequences become U+FFFD).
#[verifier::external_body]
pub fn utf8_lossy_chars(bytes: &[u8]) -> (r: Vec<char>)
    ensures
        r@ == utf8_lossy_decoded(bytes@),
        valid_utf8(bytes@) ==> r@ == decode_utf8(bytes@),
        ascii_from(r@, bytes@),
{
    String::from_utf8_lossy(bytes).chars().collect()
}

/// `encoding_rs::WINDOWS_1252.decode(bytes).0`, as characters. Claimed: the
/// result is the named one, and an ASCII character of the result comes from
/// the same byte of the input. (Windows-1252 maps bytes 0x80..=0xFF to
/// characters at or above U+0080; a sniffed UTF-8 BOM leads to lossy UTF-8
/// decoding; a sniffed UTF-16 BOM makes an ASCII character out of a code unit
/// whose low byte is that character.) Also claimed: without a sniffed BOM,
/// each byte becomes one character of the encoding's table, a one-to-one
/// table, so encoding the result gives the bytes back with no unmappable
/// character.
#[verifier::external_body]
pub fn windows_1252_chars(bytes: &[u8]) -> (r: Vec<char>)
    ensures
        r@ == windows_1252_decoded(bytes@),
        ascii_from(r@, bytes@),
        !sniffed_bom(bytes@) ==> windows_1252_encoded(r@) == (bytes@, false),
{
    encoding_rs::WINDOWS_1252.decode(bytes).0.chars().collect()
}

/// `encoding_rs::WINDOWS_1252.encode(text)`: the encoded bytes and whether
/// some character had no Windows-1252 byte. Claimed: the pair is the named
/// one; and when every character was mapped and the bytes do not start with
/// a BOM that decoding sniffs, decoding them gives the text back (the table
/// is one-to-one).
#[verifier::external_body]
pub fn windows_1252_encode(text: &str) -> (r: (Vec<u8>, bool))
    ensures
        (r.0@, r.1) == windows_1252_encoded(text@),
        !r.1 && !sniffed_bom(r.0@) ==> windows_1252_decoded(r.0@) == text@,
{
    let (bytes, _, bad) = encoding_rs::WINDOWS_1252.encode(text);
    (bytes.into_owned(), bad)
}

/// Collects the characters into a `String` (`FromIterator<char>`); the
/// string holds exactly those characters.
#[verifier::external_body]
pub fn string_of(chars: &[char]) -> (r: String)
    ensures
        r@ == chars@,
{
    chars.iter().collect()
}

/// The characters of the string, in order.
pub fn chars_of(s: &str) -> (r: Vec<char>)
    ensures
        r@ == s@,
{
    broadcast use vstd::string::axiom_spec_iter;

    let mut v: Vec<char> = Vec::new();
    for c in it: s.chars()
        invariant
            v@ == it.seq().take(it.index() as int),
            it.seq() == s@,
    {
        v.push(c);
    }
    v
}

} // verus!
