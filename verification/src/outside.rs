//! The calls that leave this library, each behind a contract.
//!
//! Nothing in this module is proved: each function hands its arguments to one
//! function of another crate or of the standard library, and its contract
//! repeats what that function documents.

use bstr::ByteSlice;
use vstd::prelude::*;
use vstd::utf8::{decode_utf8, valid_utf8};

use crate::lines::{rows, split_lines};
use crate::path::{below, components, left_behind, portable};
use crate::search::{occurs, occurs_at};

verus! {

/// `bstr::ByteSlice::find`: the index of the first occurrence of `needle` in
/// `hay`, or nothing where it does not occur. An empty needle occurs at the
/// start.
#[verifier::external_body]
pub(crate) fn find(hay: &[u8], needle: &[u8]) -> (found: Option<usize>)
    ensures
        match found {
            Some(at) => {
                &&& occurs_at(hay@, needle@, at as int)
                &&& forall|before: int| before < at ==> !occurs_at(hay@, needle@, before)
            },
            None => !occurs(hay@, needle@),
        },
{
    hay.find(needle)
}

/// `bstr::ByteSlice::lines_with_terminator`, each line copied out: the bytes
/// cut after every line feed, with no empty line at the end.
#[verifier::external_body]
pub(crate) fn lines_with_terminator(bytes: &[u8]) -> (lines: Vec<Vec<u8>>)
    ensures
        rows(lines@) == split_lines(bytes@),
{
    bytes.lines_with_terminator().map(|line| line.to_vec()).collect()
}

/// `std::str::from_utf8`: the text that the bytes encode, exactly where they
/// are valid UTF-8.
#[verifier::external_body]
pub(crate) fn utf8_text(bytes: &[u8]) -> (text: Option<&str>)
    ensures
        text is Some <==> valid_utf8(bytes@),
        text matches Some(t) ==> t@ == decode_utf8(bytes@),
{
    std::str::from_utf8(bytes).ok()
}

/// What `String::from_utf8_lossy` makes of the given bytes.
pub uninterp spec fn lossy_text(bytes: Seq<u8>) -> Seq<char>;

/// `String::from_utf8_lossy`: valid UTF-8 is decoded; in other bytes each
/// malformed stretch is replaced by U+FFFD, and the contract only says that
/// the outcome depends on nothing but the bytes.
#[verifier::external_body]
pub(crate) fn from_utf8_lossy(bytes: &[u8]) -> (text: String)
    ensures
        text@ == lossy_text(bytes@),
        valid_utf8(bytes@) ==> text@ == decode_utf8(bytes@),
{
    String::from_utf8_lossy(bytes).into_owned()
}

/// What the `{:?}` format makes of the given text.
pub uninterp spec fn debug_text(text: Seq<char>) -> Seq<char>;

/// The text holds nothing but printing ASCII characters, and neither `"` nor
/// `\`.
pub open spec fn quotes_as_is(text: Seq<char>) -> bool {
    forall|i: int|
        0 <= i < text.len() ==> ' ' <= #[trigger] text[i] <= '~' && text[i] != '"' && text[i]
            != '\\'
}

/// The text as it is quoted: between quotation marks, and otherwise as the
/// `{:?}` format escapes it.
pub open spec fn quoted_text(text: Seq<char>) -> Seq<char> {
    if quotes_as_is(text) {
        seq!['"'] + text + seq!['"']
    } else {
        debug_text(text)
    }
}

/// `format!` with `{:?}` on a text: quotation marks around it, and escapes for
/// quotation marks, backslashes and characters that do not print. Which
/// characters print is a matter of Unicode tables, so the contract only says
/// that the outcome depends on nothing but the text, and that printing ASCII
/// characters other than these two stay as they are.
#[verifier::external_body]
pub(crate) fn quote(text: &str) -> (quoted: String)
    ensures
        quoted@ == debug_text(text@),
        quotes_as_is(text@) ==> quoted@ == seq!['"'] + text@ + seq!['"'],
{
    format!("{:?}", text)
}

/// `std::path::Path::strip_prefix`: the rest of a path below a root, as
/// `std::path::Path::display` shows it, or nothing where the path is not below
/// the root, which goes by whole components. The rest has the components that
/// the root has not, and it is a part of the path's own text. Whether that keeps
/// what follows its last component, a `/` or a `/.`, is not stated; nor is what
/// comes of a path or a root that platforms read in different ways, but for a
/// path that is the root: nothing is left of it.
#[verifier::external_body]
pub(crate) fn strip_prefix(path: &str, root: &str) -> (rest: Option<String>)
    ensures
        path@ == root@ ==> (rest matches Some(rest) && rest@.len() == 0),
        portable(path@) && portable(root@) ==> match rest {
            Some(rest) => below(path@, root@) && left_behind(
                path@,
                components(root@).len() as int,
                rest@,
            ),
            None => !below(path@, root@),
        },
{
    std::path::Path::new(path).strip_prefix(root).ok().map(|rest| rest.display().to_string())
}

/// What `serde_json` makes of an object with one entry, whose value is an
/// object of texts.
pub uninterp spec fn nested_object_text(
    key: Seq<char>,
    entries: Seq<(Seq<char>, Seq<char>)>,
) -> Seq<char>;

/// `serde_json::Value::to_string` on an object with one entry, whose value is
/// an object of texts. The contract only says that the outcome depends on
/// nothing but the key and the entries.
#[verifier::external_body]
pub(crate) fn nested_object(key: &str, entries: Vec<(String, String)>) -> (text: String)
    ensures
        text@ == nested_object_text(key@, entries_view(entries@)),
{
    let mut inner = serde_json::Map::new();
    inner.extend(entries.into_iter().map(|e| (e.0, serde_json::Value::String(e.1))));
    let mut outer = serde_json::Map::new();
    outer.insert(key.to_owned(), serde_json::Value::Object(inner));
    serde_json::Value::Object(outer).to_string()
}

/// Entries as mathematical values.
pub open spec fn entries_view(entries: Seq<(String, String)>) -> Seq<(Seq<char>, Seq<char>)> {
    entries.map_values(|e: (String, String)| (e.0@, e.1@))
}

} // verus!
