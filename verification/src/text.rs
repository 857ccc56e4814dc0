//! Text fields: decoding bytes to strings and trimming them.

use crate::scan::{drop_tail_while, lemma_drop_tail_while, lemma_suffix_run, skip_while};
use vstd::prelude::*;
use vstd::string::StringExecFns;
use vstd::utf8::*;

verus! {

broadcast use vstd::string::group_string_axioms;

/// The text that permissive decoding makes of bytes that are not valid
/// UTF-8: each invalid sequence is replaced by U+FFFD.
pub uninterp spec fn utf8_repaired(bytes: Seq<u8>) -> Seq<char>;

/// The text of a byte sequence under permissive decoding: the characters
/// that valid UTF-8 encodes, and the repaired text otherwise.
pub open spec fn lossy_text(bytes: Seq<u8>) -> Seq<char> {
    if valid_utf8(bytes) {
        decode_utf8(bytes)
    } else {
        utf8_repaired(bytes)
    }
}

/// Calls `String::from_utf8_lossy`. Trusted: valid UTF-8 comes back as the
/// characters it encodes, anything else as the repaired text, which has a
/// name and no definition here.
#[verifier::external_body]
pub(crate) fn decode_lossy(bytes: &[u8]) -> (text: String)
    ensures
        valid_utf8(bytes@) ==> text@ == decode_utf8(bytes@),
        !valid_utf8(bytes@) ==> text@ == utf8_repaired(bytes@),
{
    String::from_utf8_lossy(bytes).into_owned()
}

/// Calls `String::from_utf8` on a copy of the bytes. Trusted: the call
/// succeeds exactly on valid UTF-8, with the characters that it encodes.
#[verifier::external_body]
pub(crate) fn decode_strict(bytes: &[u8]) -> (text: Option<String>)
    ensures
        text is Some <==> valid_utf8(bytes@),
        text matches Some(s) ==> s@ == decode_utf8(bytes@),
{
    String::from_utf8(bytes.to_vec()).ok()
}

/// Every byte is an ASCII code.
pub open spec fn is_ascii_bytes(bytes: Seq<u8>) -> bool {
    forall|i: int| 0 <= i < bytes.len() ==> bytes[i] < 0x80
}

/// The characters whose ASCII codes are `bytes`.
pub open spec fn ascii_text(bytes: Seq<u8>) -> Seq<char> {
    Seq::new(bytes.len(), |i: int| bytes[i] as char)
}

/// ASCII bytes are valid UTF-8 and decode to themselves.
pub proof fn lemma_ascii_decodes_to_itself(bytes: Seq<u8>)
    requires
        is_ascii_bytes(bytes),
    ensures
        valid_utf8(bytes),
        decode_utf8(bytes) == ascii_text(bytes),
        lossy_text(bytes) == ascii_text(bytes),
{
    let chars = ascii_text(bytes);
    assert(is_ascii_chars(chars));
    is_ascii_chars_encode_utf8(chars);
    assert(encode_utf8(chars) =~= bytes);
    encode_utf8_valid_utf8(chars);
    encode_utf8_decode_utf8(chars);
}

/// The string whose characters have the given ASCII codes.
pub fn text_from_ascii(bytes: &[u8]) -> (text: String)
    requires
        is_ascii_bytes(bytes@),
    ensures
        text@ == ascii_text(bytes@),
{
    proof {
        lemma_ascii_decodes_to_itself(bytes@);
    }
    decode_lossy(bytes)
}

/// A white-space character of Unicode: one that the standard marks as
/// White_Space.
pub open spec fn is_whitespace_char(c: char) -> bool {
    let code = c as u32;
    ||| (0x09 <= code && code <= 0x0D)
    ||| code == 0x20
    ||| code == 0x85
    ||| code == 0xA0
    ||| code == 0x1680
    ||| (0x2000 <= code && code <= 0x200A)
    ||| code == 0x2028
    ||| code == 0x2029
    ||| code == 0x202F
    ||| code == 0x205F
    ||| code == 0x3000
}

/// Whether a character is white space.
pub fn is_whitespace(c: char) -> (white: bool)
    ensures
        white == is_whitespace_char(c),
{
    let code: u32 = c as u32;
    (0x09 <= code && code <= 0x0D) || code == 0x20 || code == 0x85 || code == 0xA0 || code
        == 0x1680 || (0x2000 <= code && code <= 0x200A) || code == 0x2028 || code == 0x2029 || code
        == 0x202F || code == 0x205F || code == 0x3000
}

/// The predicate of the white-space characters.
pub open spec fn whitespace() -> spec_fn(char) -> bool {
    |c: char| is_whitespace_char(c)
}

/// `text` without its leading and trailing white space.
pub open spec fn trim_whitespace(text: Seq<char>) -> Seq<char> {
    drop_tail_while(skip_while(text, whitespace()), whitespace())
}

/// A character that is trimmed from the end of a text field: white space
/// or NUL.
pub open spec fn is_trimmed_char(c: char) -> bool {
    is_whitespace_char(c) || c == '\0'
}

/// The predicate of the characters that are trimmed from the end of a
/// text field.
pub open spec fn trimmed_char() -> spec_fn(char) -> bool {
    |c: char| is_trimmed_char(c)
}

/// The text of a field: its bytes decoded permissively, then without the
/// white space and NULs at the end.
pub open spec fn trimmed_text(bytes: Seq<u8>) -> Seq<char> {
    drop_tail_while(lossy_text(bytes), trimmed_char())
}

/// The text of the field of `length` bytes at `offset` in `data`; empty
/// where the field does not lie within `data`.
pub open spec fn field_text(data: Seq<u8>, offset: int, length: int) -> Seq<char> {
    if offset >= data.len() || offset + length > data.len() {
        Seq::empty()
    } else {
        trimmed_text(data.subrange(offset, offset + length))
    }
}

/// The text of a field is the start of what its bytes decode to. It does
/// not end in white space or NUL, and what was taken off is nothing but
/// white space and NULs.
pub proof fn lemma_trimmed_text_is_prefix(bytes: Seq<u8>)
    ensures
        trimmed_text(bytes).len() <= lossy_text(bytes).len(),
        trimmed_text(bytes) == lossy_text(bytes).take(trimmed_text(bytes).len() as int),
        trimmed_text(bytes).len() > 0 ==> !is_trimmed_char(trimmed_text(bytes).last()),
        forall|i: int|
            trimmed_text(bytes).len() <= i < lossy_text(bytes).len() ==> is_trimmed_char(
                #[trigger] lossy_text(bytes)[i],
            ),
{
    lemma_drop_tail_while(lossy_text(bytes), trimmed_char());
}

/// The text of a field, written out as bytes and read as a field again, is
/// the same text.
pub proof fn lemma_trimmed_text_is_stable(bytes: Seq<u8>)
    ensures
        trimmed_text(encode_utf8(trimmed_text(bytes))) == trimmed_text(bytes),
{
    let text = trimmed_text(bytes);
    lemma_trimmed_text_is_prefix(bytes);
    encode_utf8_valid_utf8(text);
    encode_utf8_decode_utf8(text);
}

/// Whether a character is trimmed from the end of a text field.
pub fn is_trimmed(c: char) -> (trimmed: bool)
    ensures
        trimmed == is_trimmed_char(c),
{
    c == '\0' || is_whitespace(c)
}

/// Decodes bytes as text and takes the white space and NULs off its end.
/// Bytes that are not valid UTF-8 are replaced, never refused.
pub fn ascii_string_trimmed(data: &[u8]) -> (text: String)
    ensures
        text@ == trimmed_text(data@),
{
    let text = decode_lossy(data);
    let chars = chars_of(text.as_str());
    let mut kept: usize = chars.len();
    while kept > 0 && is_trimmed(chars[kept - 1])
        invariant
            kept <= chars@.len(),
            forall|i: int| kept <= i < chars@.len() ==> trimmed_char()(#[trigger] chars@[i]),
        decreases kept,
    {
        kept -= 1;
    }
    proof {
        lemma_suffix_run(chars@, trimmed_char(), kept as int);
    }
    if kept == chars.len() {
        assert(text@.take(kept as int) =~= text@);
        text
    } else {
        String::from_str(text.as_str().substring_char(0, kept))
    }
}

/// Reads the text field of `length` bytes at `offset`. A field that does
/// not lie within `data` reads as the empty string.
pub fn ascii_string(data: &[u8], offset: usize, length: usize) -> (text: String)
    ensures
        text@ == field_text(data@, offset as int, length as int),
{
    if offset >= data.len() || length > data.len() - offset {
        return String::new();
    }
    ascii_string_trimmed(vstd::slice::slice_subrange(data, offset, offset + length))
}

/// A marker of at least one character has at least one byte.
pub proof fn lemma_marker_not_empty(marker: &str)
    requires
        marker@.len() > 0,
    ensures
        encode_utf8(marker@).len() > 0,
{
    encode_utf8_first_scalar(marker@);
    assert(valid_first_scalar(encode_utf8(marker@)));
}

/// The characters of a string, one by one.
pub fn chars_of(text: &str) -> (chars: Vec<char>)
    ensures
        chars@ == text@,
{
    let mut chars: Vec<char> = Vec::new();
    for c in it: text.chars()
        invariant
            it.seq() == text@,
            chars@ == it.seq().take(it.index()),
    {
        chars.push(c);
        assert(chars@ =~= it.seq().take(it.index() + 1));
    }
    assert(text@.take(text@.len() as int) =~= text@);
    chars
}

} // verus!
