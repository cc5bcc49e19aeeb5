//! The repository that encloses a directory, read from what the version
//! control command printed.

use vstd::prelude::*;
use vstd::string::StringSliceAdditionalSpecFns;
use vstd::utf8::{decode_utf8, valid_utf8};

verus! {

/// Why no repository was found.
#[derive(Debug, Clone, Copy, PartialEq, Eq, Structural)]
pub enum ResolveError {
    /// The command did not succeed: the directory is in no repository.
    NotARepository,
    /// The command printed what is no UTF-8 text.
    NotText,
}

/// The character is white space: one of the characters that have the
/// property White_Space in Unicode.
pub open spec fn is_white_space(c: char) -> bool {
    let code = c as u32;
    ||| 0x09 <= code <= 0x0D
    ||| code == 0x20
    ||| code == 0x85
    ||| code == 0xA0
    ||| code == 0x1680
    ||| 0x2000 <= code <= 0x200A
    ||| code == 0x2028
    ||| code == 0x2029
    ||| code == 0x202F
    ||| code == 0x205F
    ||| code == 0x3000
}

/// A text without the white space at its start.
pub open spec fn trimmed_start(text: Seq<char>) -> Seq<char>
    decreases text.len(),
{
    if text.len() > 0 && is_white_space(text[0]) {
        trimmed_start(text.skip(1))
    } else {
        text
    }
}

/// A text without the white space at its end.
pub open spec fn trimmed_end(text: Seq<char>) -> Seq<char>
    decreases text.len(),
{
    if text.len() > 0 && is_white_space(text.last()) {
        trimmed_end(text.drop_last())
    } else {
        text
    }
}

/// A text without the white space at its start and at its end.
pub open spec fn trimmed(text: Seq<char>) -> Seq<char> {
    trimmed_end(trimmed_start(text))
}

/// Where the text without the white space at its start begins: all before
/// that place is white space, and what stands there is not.
pub proof fn lemma_trimmed_start(text: Seq<char>) -> (from: int)
    ensures
        0 <= from <= text.len(),
        trimmed_start(text) == text.skip(from),
        forall|i: int| 0 <= i < from ==> is_white_space(#[trigger] text[i]),
        from < text.len() ==> !is_white_space(text[from]),
    decreases text.len(),
{
    if text.len() > 0 && is_white_space(text[0]) {
        let rest = text.skip(1);
        let inner = lemma_trimmed_start(rest);
        assert(rest.skip(inner) =~= text.skip(inner + 1));
        assert forall|i: int| 0 <= i < inner + 1 implies is_white_space(#[trigger] text[i]) by {
            if i > 0 {
                assert(rest[i - 1] == text[i]);
            }
        }
        if inner + 1 < text.len() {
            assert(rest[inner] == text[inner + 1]);
        }
        inner + 1
    } else {
        assert(text.skip(0) =~= text);
        0
    }
}

/// Where the text without the white space at its end stops: all from that
/// place on is white space, and what stands before it is not.
pub proof fn lemma_trimmed_end(text: Seq<char>) -> (to: int)
    ensures
        0 <= to <= text.len(),
        trimmed_end(text) == text.take(to),
        forall|i: int| to <= i < text.len() ==> is_white_space(#[trigger] text[i]),
        0 < to ==> !is_white_space(text[to - 1]),
    decreases text.len(),
{
    if text.len() > 0 && is_white_space(text.last()) {
        let rest = text.drop_last();
        let inner = lemma_trimmed_end(rest);
        assert(rest.take(inner) =~= text.take(inner));
        assert forall|i: int| inner <= i < text.len() implies is_white_space(
            #[trigger] text[i],
        ) by {
            if i < rest.len() {
                assert(rest[i] == text[i]);
            }
        }
        if 0 < inner {
            assert(rest[inner - 1] == text[inner - 1]);
        }
        inner
    } else {
        assert(text.take(text.len() as int) =~= text);
        text.len() as int
    }
}

/// The trimmed text is the part of the text between its first and its last
/// character that is no white space: it neither starts nor ends with white
/// space, and all that was left out of the text is white space.
pub proof fn lemma_trimmed(text: Seq<char>) -> (range: (int, int))
    ensures
        0 <= range.0 <= range.1 <= text.len(),
        trimmed(text) == text.subrange(range.0, range.1),
        forall|i: int|
            0 <= i < range.0 || range.1 <= i < text.len() ==> is_white_space(#[trigger] text[i]),
        range.0 < range.1 ==> !is_white_space(text[range.0]) && !is_white_space(
            text[range.1 - 1],
        ),
{
    let from = lemma_trimmed_start(text);
    let tail = text.skip(from);
    let to = lemma_trimmed_end(tail);
    assert(tail.take(to) =~= text.subrange(from, from + to));
    assert forall|i: int|
        0 <= i < from || from + to <= i < text.len() implies is_white_space(
        #[trigger] text[i],
    ) by {
        if i >= from + to {
            assert(tail[i - from] == text[i]);
        }
    }
    if to > 0 {
        assert(tail[to - 1] == text[from + to - 1]);
        assert(tail[0] == text[from]);
    }
    (from, from + to)
}

/// Calls `core::str::from_utf8`.
///
/// Not proved: that the bytes are read as text exactly where they are valid
/// UTF-8, and that the text is then made of those same bytes.
#[verifier::external_body]
fn text_of(bytes: &[u8]) -> (text: Option<&str>)
    ensures
        text is Some <==> valid_utf8(bytes@),
        text matches Some(read) ==> read.spec_bytes() == bytes@,
{
    core::str::from_utf8(bytes).ok()
}

/// Calls `str::trim`.
///
/// Not proved: that `str::trim` gives the text without the white space at
/// its start and at its end, where white space is what has the Unicode
/// property White_Space, as `trimmed` states it.
#[verifier::external_body]
fn trim(text: &str) -> (inner: &str)
    ensures
        inner@ == trimmed(text@),
{
    text.trim()
}

/// The root of the repository, from the outcome of the command that asks
/// the version control for it: whether it succeeded, and what it printed.
/// The root is the printed text without the white space around it.
pub fn repository_root(succeeded: bool, output: &[u8]) -> (root: Result<String, ResolveError>)
    ensures
        match root {
            Ok(path) => succeeded && valid_utf8(output@) && path@ == trimmed(decode_utf8(output@)),
            Err(ResolveError::NotARepository) => !succeeded,
            Err(ResolveError::NotText) => succeeded && !valid_utf8(output@),
        },
{
    if !succeeded {
        return Err(ResolveError::NotARepository);
    }
    match text_of(output) {
        Some(printed) => {
            proof {
                vstd::utf8::encode_utf8_decode_utf8(printed@);
            }
            Ok(trim(printed).to_owned())
        },
        None => Err(ResolveError::NotText),
    }
}

} // verus!
