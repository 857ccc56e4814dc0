//! What a file says of itself: the name of the dataset and two dates.
//!
//! Each is text that follows a marker. The name is the first token after
//! its marker, whatever bytes come after the token; a date is the text of
//! the window after its marker. Nothing here fails a decode: where the
//! marker or the text is missing, the title falls back and a date is
//! absent.

use crate::bytes::{
    find_bytes, first_match, lemma_first_match_found, lemma_first_match_is, matches_at,
};
use crate::model::optional_text;
use crate::scan::{
    is_prefix_run, is_suffix_run, lemma_prefix_run, lemma_suffix_run, skip_while, take_while,
};
use crate::text::{
    ascii_text, chars_of, decode_strict, is_whitespace, lemma_ascii_decodes_to_itself,
    lemma_marker_not_empty, trim_whitespace, whitespace,
};
use crate::XPTParser;
use vstd::prelude::*;
use vstd::slice::slice_subrange;
use vstd::string::StringExecFns;
use vstd::utf8::{decode_utf8, encode_utf8, valid_utf8};

verus! {

/// The marker in front of the name of the dataset.
pub const MEMBER_NAME_MARKER: &'static str = "MEMBER  NAME";

/// The marker in front of the date of creation.
pub const DATE_CREATED_MARKER: &'static str = "DATECREATED";

/// The marker in front of the date of the last change.
pub const DATE_MODIFIED_MARKER: &'static str = "DATEMODIFIED";

/// The title of a dataset that names itself nowhere.
pub const DEFAULT_TITLE: &'static str = "XPT Dataset";

/// How many bytes after its marker may hold the name of the dataset.
pub const TITLE_WINDOW: usize = 80;

/// How many bytes after its marker may hold a date.
pub const DATE_WINDOW: usize = 32;

/// The bytes of `data` from `start` on, `limit` of them at most.
pub open spec fn window_after(data: Seq<u8>, start: int, limit: int) -> Seq<u8> {
    if data.len() - start > limit {
        data.subrange(start, start + limit)
    } else {
        data.subrange(start, data.len() as int)
    }
}

/// The text in the window after the first occurrence of `marker`: absent
/// where the marker does not occur or the window is not valid UTF-8.
pub open spec fn text_after_marker(data: Seq<u8>, marker: Seq<u8>, limit: int) -> Option<
    Seq<char>,
> {
    match first_match(data, marker) {
        None => None,
        Some(at) => {
            let window = window_after(data, at + marker.len(), limit);
            if valid_utf8(window) {
                Some(decode_utf8(window))
            } else {
                None
            }
        },
    }
}

/// A byte that separates the tokens after the marker of the name: space
/// or NUL.
pub open spec fn is_delimiter_byte(byte: u8) -> bool {
    byte == 0x20 || byte == 0
}

/// The predicate of the delimiters.
pub open spec fn delimiter() -> spec_fn(u8) -> bool {
    |byte: u8| is_delimiter_byte(byte)
}

/// The predicate of the bytes that tokens are made of.
pub open spec fn not_delimiter() -> spec_fn(u8) -> bool {
    |byte: u8| !is_delimiter_byte(byte)
}

/// The first token of a window: the bytes between the delimiters at its
/// start and the next delimiter, or the end of the window.
pub open spec fn first_token(window: Seq<u8>) -> Seq<u8> {
    take_while(skip_while(window, delimiter()), not_delimiter())
}

/// `text` without white space at its ends; absent where nothing is left.
pub open spec fn trimmed_or_absent(text: Seq<char>) -> Option<Seq<char>> {
    if trim_whitespace(text).len() == 0 {
        None
    } else {
        Some(trim_whitespace(text))
    }
}

/// The name that a token gives: its text without white space at its ends.
/// A token that is not valid UTF-8, or of which nothing is left, gives no
/// name.
pub open spec fn token_title(token: Seq<u8>) -> Option<Seq<char>> {
    if valid_utf8(token) {
        trimmed_or_absent(decode_utf8(token))
    } else {
        None
    }
}

/// The name that the file gives the dataset: what the first token in the
/// window of 80 bytes after the first marker gives. The rest of the
/// window plays no part.
pub open spec fn title_in_file(data: Seq<u8>) -> Option<Seq<char>> {
    let marker = encode_utf8(MEMBER_NAME_MARKER@);
    match first_match(data, marker) {
        None => None,
        Some(at) => token_title(first_token(window_after(data, at + marker.len(), 80))),
    }
}

/// The date that follows `marker` in the file: the text of the window,
/// without white space at its ends.
pub open spec fn date_in_file(data: Seq<u8>, marker: Seq<u8>) -> Option<Seq<char>> {
    match text_after_marker(data, marker, 32) {
        None => None,
        Some(text) => trimmed_or_absent(text),
    }
}

/// The title of the dataset: the name in the file; without one, the stem
/// of the file's name, if there is one and it is not empty; else the
/// default title.
pub open spec fn chosen_title(in_file: Option<Seq<char>>, stem: Option<Seq<char>>) -> Seq<char> {
    match in_file {
        Some(name) => name,
        None => match stem {
            Some(name) => if name.len() > 0 {
                name
            } else {
                DEFAULT_TITLE@
            },
            None => DEFAULT_TITLE@,
        },
    }
}

/// The number of white-space characters at the start of `chars`.
fn leading_whitespace(chars: &[char]) -> (count: usize)
    ensures
        is_prefix_run(chars@, whitespace(), count as int),
{
    let size: usize = chars.len();
    let mut count: usize = 0;
    while count < size && is_whitespace(chars[count])
        invariant
            count <= size,
            size == chars@.len(),
            forall|i: int| 0 <= i < count ==> whitespace()(#[trigger] chars@[i]),
        decreases size - count,
    {
        count += 1;
    }
    count
}

/// The length of `chars` without the white space at its end.
fn without_trailing_whitespace(chars: &[char]) -> (start: usize)
    ensures
        is_suffix_run(chars@, whitespace(), start as int),
{
    let mut start: usize = chars.len();
    while start > 0 && is_whitespace(chars[start - 1])
        invariant
            start <= chars@.len(),
            forall|i: int| start <= i < chars@.len() ==> whitespace()(#[trigger] chars@[i]),
        decreases start,
    {
        start -= 1;
    }
    start
}

/// `text` without white space at its ends, if anything is left.
fn trimmed(text: &str) -> (part: Option<String>)
    ensures
        optional_text(part) == trimmed_or_absent(text@),
        part matches Some(kept) ==> kept@.len() > 0,
{
    let chars = chars_of(text);
    let all = chars.as_slice();
    let lead = leading_whitespace(all);
    let core = slice_subrange(all, lead, all.len());
    let keep = without_trailing_whitespace(core);
    proof {
        lemma_prefix_run(all@, whitespace(), lead as int);
        lemma_suffix_run(core@, whitespace(), keep as int);
        assert(all@.skip(lead as int) =~= core@);
        assert(core@.take(keep as int) =~= text@.subrange(lead as int, lead + keep));
    }
    if keep == 0 {
        None
    } else {
        Some(String::from_str(text.substring_char(lead, lead + keep)))
    }
}

/// The window of at most `limit` bytes after the first occurrence of
/// `marker`.
fn window_after_marker<'a>(data: &'a [u8], marker: &[u8], limit: usize) -> (window: Option<
    &'a [u8],
>)
    requires
        marker@.len() > 0,
    ensures
        match window {
            Some(bytes) => first_match(data@, marker@) matches Some(at) && bytes@ == window_after(
                data@,
                at + marker@.len(),
                limit as int,
            ),
            None => first_match(data@, marker@) is None,
        },
{
    match find_bytes(data, marker) {
        None => None,
        Some(at) => {
            proof {
                lemma_first_match_found(data@, marker@);
                assert(matches_at(data@, marker@, at as int));
                assert(at + marker@.len() <= data.len());
            }
            let start: usize = at + marker.len();
            let end: usize = if data.len() - start > limit {
                start + limit
            } else {
                data.len()
            };
            Some(slice_subrange(data, start, end))
        },
    }
}

/// The number of bytes at the start of `bytes` that are delimiters, or,
/// for `tokens`, that are none.
fn leading_bytes(bytes: &[u8], tokens: bool) -> (count: usize)
    ensures
        is_prefix_run(
            bytes@,
            if tokens {
                not_delimiter()
            } else {
                delimiter()
            },
            count as int,
        ),
{
    let ghost class = if tokens {
        not_delimiter()
    } else {
        delimiter()
    };
    let size: usize = bytes.len();
    let mut count: usize = 0;
    while count < size && (bytes[count] == 0x20 || bytes[count] == 0) != tokens
        invariant
            count <= size,
            size == bytes@.len(),
            class == if tokens {
                not_delimiter()
            } else {
                delimiter()
            },
            forall|i: int| 0 <= i < count ==> class(#[trigger] bytes@[i]),
        decreases size - count,
    {
        count += 1;
    }
    count
}

/// Looks for the name of the dataset in the file.
pub fn find_title(data: &[u8]) -> (title: Option<String>)
    ensures
        optional_text(title) == title_in_file(data@),
        title matches Some(name) ==> name@.len() > 0,
{
    proof {
        reveal_strlit("MEMBER  NAME");
        lemma_marker_not_empty(MEMBER_NAME_MARKER);
    }
    match window_after_marker(data, MEMBER_NAME_MARKER.as_bytes(), TITLE_WINDOW) {
        None => None,
        Some(window) => {
            let skipped = leading_bytes(window, false);
            let rest = slice_subrange(window, skipped, window.len());
            let count = leading_bytes(rest, true);
            let token = slice_subrange(rest, 0, count);
            proof {
                lemma_prefix_run(window@, delimiter(), skipped as int);
                lemma_prefix_run(rest@, not_delimiter(), count as int);
                assert(token@ =~= first_token(window@));
            }
            match decode_strict(token) {
                None => None,
                Some(text) => trimmed(text.as_str()),
            }
        },
    }
}

/// Chooses the title of the dataset from the name in the file and the
/// stem of the file's name.
pub fn choose_title(in_file: Option<String>, stem: Option<String>) -> (title: String)
    ensures
        title@ == chosen_title(optional_text(in_file), optional_text(stem)),
{
    match in_file {
        Some(name) => name,
        None => match stem {
            Some(name) => if name.as_str().is_empty() {
                String::from_str(DEFAULT_TITLE)
            } else {
                name
            },
            None => String::from_str(DEFAULT_TITLE),
        },
    }
}

/// A name of a file and nothing else: not empty, without `/`, `\` or `:`,
/// and neither `.` nor `..`. Every platform takes such a name for a path
/// of one component.
pub open spec fn is_plain_name(name: Seq<char>) -> bool {
    &&& name.len() > 0
    &&& forall|i: int|
        0 <= i < name.len() ==> (#[trigger] name[i]) != '/' && name[i] != '\\' && name[i] != ':'
    &&& !(name.len() == 1 && name[0] == '.')
    &&& !(name.len() == 2 && name[0] == '.' && name[1] == '.')
}

/// The index of the last `.` in `name`, or -1 where there is none.
pub open spec fn last_dot(name: Seq<char>) -> int
    decreases name.len(),
{
    if name.len() == 0 {
        -1
    } else if name.last() == '.' {
        name.len() - 1
    } else {
        last_dot(name.drop_last())
    }
}

/// The stem of a plain name: what stands before its last `.`; the whole
/// name where it has no `.`, or none but its first character.
pub open spec fn plain_stem(name: Seq<char>) -> Seq<char> {
    if last_dot(name) <= 0 {
        name
    } else {
        name.take(last_dot(name))
    }
}

/// What may come back as the stem of a suggested name: nothing where no
/// name is suggested, and the stem of a plain name. Of other names
/// nothing is known: how they are cut into components is left to the
/// platform.
pub open spec fn stem_fits(hint: Option<Seq<char>>, stem: Option<Seq<char>>) -> bool {
    match hint {
        None => stem is None,
        Some(name) => is_plain_name(name) ==> stem == Some(plain_stem(name)),
    }
}

/// The view of an optional string slice.
pub open spec fn optional_str(text: Option<&str>) -> Option<Seq<char>> {
    match text {
        Some(s) => Some(s@),
        None => None,
    }
}

/// The last `.` lies within the name.
pub proof fn lemma_last_dot_in_range(name: Seq<char>)
    ensures
        -1 <= last_dot(name) < name.len(),
        last_dot(name) >= 0 ==> name[last_dot(name)] == '.',
    decreases name.len(),
{
    if name.len() > 0 && name.last() != '.' {
        lemma_last_dot_in_range(name.drop_last());
    }
}

/// The stem of a name that is not empty is not empty.
pub proof fn lemma_plain_stem_not_empty(name: Seq<char>)
    requires
        name.len() > 0,
    ensures
        plain_stem(name).len() > 0,
{
    lemma_last_dot_in_range(name);
}

/// Calls `Path::file_stem` on the hint and turns what it returns into a
/// string, where it is valid Unicode. Trusted, for a plain name only: its
/// stem is what the documentation of `Path::file_stem` says of a file
/// name. Nothing is claimed of a hint with a separator or a `:` in it,
/// which the platforms cut up differently.
#[verifier::external_body]
pub(crate) fn file_stem(hint: &str) -> (stem: Option<String>)
    ensures
        is_plain_name(hint@) ==> optional_text(stem) == Some(plain_stem(hint@)),
{
    match std::path::Path::new(hint).file_stem() {
        Some(stem) => match stem.to_str() {
            Some(text) => Some(text.to_string()),
            None => None,
        },
        None => None,
    }
}

impl XPTParser {
    /// The title of the dataset: the name that the file gives it where it
    /// gives one, else the stem of `fallback`, else the default title.
    ///
    /// The name in the file is the first token after the first marker,
    /// cut at spaces and NULs. What follows the token plays no part.
    ///
    /// For a `fallback` that is a plain name the stem is known; for one
    /// with directories in it the platform decides.
    pub fn infer_dataset_title(data: &[u8], fallback: Option<&str>) -> (title: String)
        ensures
            title@.len() > 0,
            exists|stem: Option<Seq<char>>|
                stem_fits(optional_str(fallback), stem) && title@ == #[trigger] chosen_title(
                    title_in_file(data@),
                    stem,
                ),
            match title_in_file(data@) {
                Some(name) => title@ == name,
                None => match fallback {
                    None => title@ == DEFAULT_TITLE@,
                    Some(hint) => is_plain_name(hint@) ==> title@ == plain_stem(hint@),
                },
            },
    {
        let in_file = find_title(data);
        let stem = match fallback {
            Some(hint) => file_stem(hint),
            None => None,
        };
        proof {
            lemma_default_title_not_empty();
            if let Some(hint) = fallback {
                if is_plain_name(hint@) {
                    lemma_plain_stem_not_empty(hint@);
                }
            }
        }
        let title = choose_title(in_file, stem);
        assert(title@ == chosen_title(title_in_file(data@), optional_text(stem)));
        title
    }

    /// The date that follows `marker` in the file, if there is one.
    pub fn infer_date(data: &[u8], marker: &[u8]) -> (date: Option<String>)
        requires
            marker@.len() > 0,
        ensures
            optional_text(date) == date_in_file(data@, marker@),
    {
        match window_after_marker(data, marker, DATE_WINDOW) {
            None => None,
            Some(window) => match decode_strict(window) {
                None => None,
                Some(text) => trimmed(text.as_str()),
            },
        }
    }
}

/// A file with a name in it: what comes `before` the marker, the marker,
/// delimiters, the `name` and the `rest`.
pub open spec fn named_file(before: Seq<u8>, leading: Seq<u8>, name: Seq<u8>, rest: Seq<u8>) -> Seq<
    u8,
> {
    before + encode_utf8(MEMBER_NAME_MARKER@) + leading + name + rest
}

/// The marker of the name occurs in `data` at no offset below `limit`.
pub open spec fn no_marker_below(data: Seq<u8>, limit: int) -> bool {
    forall|earlier: int|
        0 <= earlier < limit ==> !matches_at(data, encode_utf8(MEMBER_NAME_MARKER@), earlier)
}

/// The name of the dataset is the first token after the first marker,
/// whatever follows the token: the bytes after the delimiter that ends
/// it, valid UTF-8 or not, do not change the title.
pub proof fn lemma_title_is_first_token(
    before: Seq<u8>,
    leading: Seq<u8>,
    name: Seq<u8>,
    rest: Seq<u8>,
)
    requires
        no_marker_below(named_file(before, leading, name, rest), before.len() as int),
        forall|i: int| 0 <= i < leading.len() ==> is_delimiter_byte(#[trigger] leading[i]),
        forall|i: int| 0 <= i < name.len() ==> !is_delimiter_byte(#[trigger] name[i]),
        name.len() > 0,
        leading.len() + name.len() <= 80,
        rest.len() > 0 ==> is_delimiter_byte(rest[0]),
    ensures
        title_in_file(named_file(before, leading, name, rest)) == token_title(name),
{
    let marker = encode_utf8(MEMBER_NAME_MARKER@);
    let data = named_file(before, leading, name, rest);
    let at = before.len() as int;
    let start = at + marker.len();
    assert(data.subrange(at, start) =~= marker);
    lemma_first_match_is(data, marker, at);
    let window = window_after(data, start, 80);
    let skipped = leading.len() as int;
    let count = name.len() as int;
    assert forall|i: int| 0 <= i < skipped implies delimiter()(#[trigger] window[i]) by {
        assert(window[i] == leading[i]);
    }
    assert(window[skipped] == name[0]);
    lemma_prefix_run(window, delimiter(), skipped);
    let tail = window.skip(skipped);
    assert forall|i: int| 0 <= i < count implies not_delimiter()(#[trigger] tail[i]) by {
        assert(tail[i] == name[i]);
    }
    if count < tail.len() {
        assert(tail[count] == rest[0]);
    }
    lemma_prefix_run(tail, not_delimiter(), count);
    assert(tail.take(count) =~= name);
}

/// A name of visible ASCII characters is the title as it stands. So the
/// marker, `MYDATA`, a space and any further bytes give the title
/// `MYDATA`.
pub proof fn lemma_title_of_plain_name(before: Seq<u8>, name: Seq<u8>, rest: Seq<u8>)
    requires
        no_marker_below(named_file(before, Seq::empty(), name, rest), before.len() as int),
        forall|i: int| 0 <= i < name.len() ==> 0x21 <= #[trigger] name[i] <= 0x7E,
        0 < name.len() <= 80,
        rest.len() > 0 ==> is_delimiter_byte(rest[0]),
    ensures
        title_in_file(named_file(before, Seq::empty(), name, rest)) == Some(ascii_text(name)),
{
    lemma_title_is_first_token(before, Seq::empty(), name, rest);
    lemma_ascii_decodes_to_itself(name);
    let text = ascii_text(name);
    assert(!whitespace()(text[0])) by {
        assert(text[0] == name[0] as char);
    }
    assert(!whitespace()(text.last())) by {
        assert(text.last() == name[name.len() - 1] as char);
    }
}

/// The default title has characters.
pub proof fn lemma_default_title_not_empty()
    ensures
        DEFAULT_TITLE@.len() > 0,
{
    reveal_strlit("XPT Dataset");
}

/// Whatever the stem, a chosen title is not empty where the name in the
/// file is not.
pub proof fn lemma_chosen_title_not_empty(in_file: Option<Seq<char>>, stem: Option<Seq<char>>)
    requires
        in_file matches Some(name) ==> name.len() > 0,
    ensures
        chosen_title(in_file, stem).len() > 0,
{
    lemma_default_title_not_empty();
}

} // verus!
