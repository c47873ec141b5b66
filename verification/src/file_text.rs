//! The text of a file read for searching: UTF-8 when it is well formed,
//! else the first of a few legacy encodings that decodes it without
//! errors, else UTF-8 with malformed sequences replaced.
use vstd::prelude::*;
use vstd::utf8::{decode_utf8, valid_utf8};
use crate::bwt::string_from_utf8;

verus! {

/// Text encodings tried on a file's bytes.
#[derive(Debug, Clone, Copy, PartialEq, Eq, Structural)]
pub enum TextEncoding {
    Utf8,
    Windows1252,
    Iso8859_2,
    Utf16Le,
    Utf16Be,
}

/// What `encoding_rs::Encoding::decode` gives for the bytes with the given
/// encoding (a byte order mark, if present, selects the encoding it marks):
/// the text, and whether malformed sequences were replaced.
pub uninterp spec fn decoded_with(enc: TextEncoding, bytes: Seq<u8>) -> (Seq<char>, bool);

/// What `String::from_utf8_lossy` makes of the bytes: UTF-8 with each
/// malformed sequence replaced by U+FFFD.
pub uninterp spec fn utf8_lossy(bytes: Seq<u8>) -> Seq<char>;

/// Calls `encoding_rs::Encoding::decode` on the encoding that `enc` names
/// and keeps the text and the error flag (not the encoding that was used).
/// Claimed: the pair is what `decoded_with` names. The crate panics when
/// the output size overflows `usize`, which the length bound rules out.
#[verifier::external_body]
fn decode_with(enc: TextEncoding, bytes: &[u8]) -> (r: (String, bool))
    requires
        bytes.len() <= usize::MAX / 4,
    ensures
        (r.0@, r.1) == decoded_with(enc, bytes@),
{
    let encoding = match enc {
        TextEncoding::Utf8 => encoding_rs::UTF_8,
        TextEncoding::Windows1252 => encoding_rs::WINDOWS_1252,
        TextEncoding::Iso8859_2 => encoding_rs::ISO_8859_2,
        TextEncoding::Utf16Le => encoding_rs::UTF_16LE,
        TextEncoding::Utf16Be => encoding_rs::UTF_16BE,
    };
    let (text, _, had_errors) = encoding.decode(bytes);
    (text.into_owned(), had_errors)
}

/// Calls `String::from_utf8_lossy`. Claimed: the text is what `utf8_lossy`
/// names.
#[verifier::external_body]
fn from_utf8_lossy(bytes: &[u8]) -> (s: String)
    ensures
        s@ == utf8_lossy(bytes@),
{
    String::from_utf8_lossy(bytes).into_owned()
}

/// The legacy encodings tried after UTF-8, in order.
pub open spec fn fallback_encodings() -> Seq<TextEncoding> {
    seq![TextEncoding::Windows1252, TextEncoding::Iso8859_2, TextEncoding::Utf16Le, TextEncoding::Utf16Be]
}

/// The text from the first of `encs[k..]` that decodes without errors,
/// else the lossy UTF-8 text.
pub open spec fn first_clean_decoding(encs: Seq<TextEncoding>, bytes: Seq<u8>, k: int) -> Seq<char>
    decreases encs.len() - k,
{
    if k >= encs.len() || k < 0 {
        utf8_lossy(bytes)
    } else if !decoded_with(encs[k], bytes).1 {
        decoded_with(encs[k], bytes).0
    } else {
        first_clean_decoding(encs, bytes, k + 1)
    }
}

/// The text of a file's bytes: the UTF-8 text when the bytes are well-formed
/// UTF-8; else the UTF-8 decoding when it reports no error (after byte
/// order mark sniffing); else the first fallback encoding that decodes
/// without errors; else UTF-8 with malformed sequences replaced.
pub open spec fn file_text(bytes: Seq<u8>) -> Seq<char> {
    if valid_utf8(bytes) {
        decode_utf8(bytes)
    } else if !decoded_with(TextEncoding::Utf8, bytes).1 {
        decoded_with(TextEncoding::Utf8, bytes).0
    } else {
        first_clean_decoding(fallback_encodings(), bytes, 0)
    }
}

/// The searchable text of a file's contents.
pub fn read_file_content(bytes: &[u8]) -> (text: String)
    requires
        bytes.len() <= usize::MAX / 4,
    ensures
        text@ == file_text(bytes@),
{
    if let Some(s) = string_from_utf8(vstd::slice::slice_to_vec(bytes)) {
        return s;
    }
    let (text, had_errors) = decode_with(TextEncoding::Utf8, bytes);
    if !had_errors {
        return text;
    }
    let encs = [TextEncoding::Windows1252, TextEncoding::Iso8859_2, TextEncoding::Utf16Le, TextEncoding::Utf16Be];
    assert(encs@ == fallback_encodings());
    let mut k: usize = 0;
    while k < 4
        invariant
            k <= 4,
            encs@ == fallback_encodings(),
            bytes.len() <= usize::MAX / 4,
            file_text(bytes@) == first_clean_decoding(fallback_encodings(), bytes@, k as int),
        decreases 4 - k,
    {
        let (text, had_errors) = decode_with(encs[k], bytes);
        if !had_errors {
            return text;
        }
        k += 1;
    }
    from_utf8_lossy(bytes)
}

/// The order in which a file's text is chosen: well-formed UTF-8 first;
/// else the UTF-8 decoding when it reports no error; else Windows-1252, then
/// ISO-8859-2, then UTF-16LE, then UTF-16BE, the first that decodes without
/// errors; else UTF-8 with malformed sequences replaced.
pub proof fn lemma_file_text_choice(b: Seq<u8>)
    ensures
        valid_utf8(b) ==> file_text(b) == decode_utf8(b),
        !valid_utf8(b) && !decoded_with(TextEncoding::Utf8, b).1 ==> file_text(b) == decoded_with(
            TextEncoding::Utf8,
            b,
        ).0,
        !valid_utf8(b) && decoded_with(TextEncoding::Utf8, b).1 && !decoded_with(
            TextEncoding::Windows1252,
            b,
        ).1 ==> file_text(b) == decoded_with(TextEncoding::Windows1252, b).0,
        !valid_utf8(b) && decoded_with(TextEncoding::Utf8, b).1 && decoded_with(
            TextEncoding::Windows1252,
            b,
        ).1 && !decoded_with(TextEncoding::Iso8859_2, b).1 ==> file_text(b) == decoded_with(
            TextEncoding::Iso8859_2,
            b,
        ).0,
        !valid_utf8(b) && decoded_with(TextEncoding::Utf8, b).1 && decoded_with(
            TextEncoding::Windows1252,
            b,
        ).1 && decoded_with(TextEncoding::Iso8859_2, b).1 && !decoded_with(TextEncoding::Utf16Le, b).1
            ==> file_text(b) == decoded_with(TextEncoding::Utf16Le, b).0,
        !valid_utf8(b) && decoded_with(TextEncoding::Utf8, b).1 && decoded_with(
            TextEncoding::Windows1252,
            b,
        ).1 && decoded_with(TextEncoding::Iso8859_2, b).1 && decoded_with(TextEncoding::Utf16Le, b).1
            && !decoded_with(TextEncoding::Utf16Be, b).1 ==> file_text(b) == decoded_with(
            TextEncoding::Utf16Be,
            b,
        ).0,
        !valid_utf8(b) && decoded_with(TextEncoding::Utf8, b).1 && decoded_with(
            TextEncoding::Windows1252,
            b,
        ).1 && decoded_with(TextEncoding::Iso8859_2, b).1 && decoded_with(TextEncoding::Utf16Le, b).1
            && decoded_with(TextEncoding::Utf16Be, b).1 ==> file_text(b) == utf8_lossy(b),
{
    let e = fallback_encodings();
    assert(e[0] == TextEncoding::Windows1252);
    assert(e[1] == TextEncoding::Iso8859_2);
    assert(e[2] == TextEncoding::Utf16Le);
    assert(e[3] == TextEncoding::Utf16Be);
    assert(first_clean_decoding(e, b, 4) == utf8_lossy(b));
    assert(first_clean_decoding(e, b, 3) == if !decoded_with(e[3], b).1 {
        decoded_with(e[3], b).0
    } else {
        first_clean_decoding(e, b, 4)
    });
    assert(first_clean_decoding(e, b, 2) == if !decoded_with(e[2], b).1 {
        decoded_with(e[2], b).0
    } else {
        first_clean_decoding(e, b, 3)
    });
    assert(first_clean_decoding(e, b, 1) == if !decoded_with(e[1], b).1 {
        decoded_with(e[1], b).0
    } else {
        first_clean_decoding(e, b, 2)
    });
}

} // verus!
