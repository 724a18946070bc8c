//! Text as the hook compares it: logical lines, whitespace, what an edit adds.

use vstd::prelude::*;
use vstd::utf8::{encode_utf8, encode_utf8_decode_utf8, encode_utf8_valid_utf8};

use crate::encoding::lemma_encode_first;
use crate::lines::LF;
use crate::numeral::chars_of;
use crate::outside::utf8_text;
use crate::search::{first_index, lemma_first_index, texts};

verus! {

/// The characters of each text slice.
pub open spec fn slices(items: Seq<&str>) -> Seq<Seq<char>> {
    items.map_values(|item: &str| item@)
}

/// An optional text as a mathematical value.
pub open spec fn option_view(text: Option<String>) -> Option<Seq<char>> {
    match text {
        Some(text) => Some(text@),
        None => None,
    }
}

/// A text, or the empty one where there is none.
pub open spec fn option_text(text: Option<String>) -> Seq<char> {
    match text {
        Some(text) => text@,
        None => seq![],
    }
}

/// The character has the Unicode property `White_Space`.
pub open spec fn white_space(c: char) -> bool {
    ||| '\u{9}' <= c <= '\u{d}'
    ||| c == '\u{20}'
    ||| c == '\u{85}'
    ||| c == '\u{a0}'
    ||| c == '\u{1680}'
    ||| '\u{2000}' <= c <= '\u{200a}'
    ||| c == '\u{2028}'
    ||| c == '\u{2029}'
    ||| c == '\u{202f}'
    ||| c == '\u{205f}'
    ||| c == '\u{3000}'
}

/// The text without the whitespace at its two ends.
pub open spec fn trimmed(text: Seq<char>) -> Seq<char>
    decreases text.len(),
{
    if text.len() > 0 && white_space(text[0]) {
        trimmed(text.skip(1))
    } else if text.len() > 0 && white_space(text.last()) {
        trimmed(text.drop_last())
    } else {
        text
    }
}

/// The text holds nothing but whitespace.
pub open spec fn blank_text(text: Seq<char>) -> bool {
    forall|i: int| 0 <= i < text.len() ==> white_space(#[trigger] text[i])
}

/// The text cut at every line feed, the line feeds left out.
pub open spec fn pieces(text: Seq<char>) -> Seq<Seq<char>>
    decreases text.len(),
{
    let at = first_index(text, '\n') as int;
    proof {
        lemma_first_index(text, '\n');
    }
    if at == text.len() {
        seq![text]
    } else {
        seq![text.take(at)] + pieces(text.skip(at + 1))
    }
}

/// The line without a carriage return at its end.
pub open spec fn without_cr(line: Seq<char>) -> Seq<char> {
    if line.len() > 0 && line.last() == '\r' {
        line.drop_last()
    } else {
        line
    }
}

/// Each line without a carriage return at its end.
pub open spec fn without_crs(lines: Seq<Seq<char>>) -> Seq<Seq<char>> {
    lines.map_values(|line: Seq<char>| without_cr(line))
}

/// The lines, an empty one at the end left out.
pub open spec fn without_empty_end(lines: Seq<Seq<char>>) -> Seq<Seq<char>> {
    if lines.len() > 0 && lines.last().len() == 0 {
        lines.drop_last()
    } else {
        lines
    }
}

/// The lines of a text: cut at line feeds, each without a carriage return at
/// its end, and without the empty line behind a final line feed.
pub open spec fn logical_lines(text: Seq<char>) -> Seq<Seq<char>> {
    without_empty_end(without_crs(pieces(text)))
}

/// The lines without the blank ones at the two ends.
pub open spec fn trimmed_lines(lines: Seq<Seq<char>>) -> Seq<Seq<char>>
    decreases lines.len(),
{
    if lines.len() > 0 && blank_text(lines[0]) {
        trimmed_lines(lines.skip(1))
    } else if lines.len() > 0 && blank_text(lines.last()) {
        trimmed_lines(lines.drop_last())
    } else {
        lines
    }
}

/// How many lines `a` and `b` share at the front.
pub open spec fn shared_front(a: Seq<Seq<char>>, b: Seq<Seq<char>>) -> nat
    decreases a.len(),
{
    if a.len() > 0 && b.len() > 0 && a[0] == b[0] {
        1 + shared_front(a.skip(1), b.skip(1))
    } else {
        0
    }
}

/// How many lines `a` and `b` share at the back.
pub open spec fn shared_back(a: Seq<Seq<char>>, b: Seq<Seq<char>>) -> nat
    decreases a.len(),
{
    if a.len() > 0 && b.len() > 0 && a.last() == b.last() {
        1 + shared_back(a.drop_last(), b.drop_last())
    } else {
        0
    }
}

/// What `b` holds beyond `a`: its lines without the run shared at the front
/// and, of what is left, the run shared at the back; blank lines at the two
/// ends left out.
pub open spec fn added(a: Seq<Seq<char>>, b: Seq<Seq<char>>) -> Seq<Seq<char>> {
    let lead = shared_front(a, b) as int;
    let trail = shared_back(a.skip(lead), b.skip(lead)) as int;
    trimmed_lines(b.subrange(lead, b.len() - trail))
}

/// A text, or the empty one where there is none.
pub(crate) fn text_or_empty(text: &Option<String>) -> (found: &str)
    ensures
        found@ == option_text(*text),
{
    match text {
        Some(text) => text.as_str(),
        None => {
            proof {
                reveal_strlit("");
            }
            assert(""@ == Seq::<char>::empty());
            ""
        },
    }
}

/// Whether a character is whitespace.
fn is_white_space(c: char) -> (yes: bool)
    ensures
        yes == white_space(c),
{
    ('\u{9}' <= c && c <= '\u{d}') || c == '\u{20}' || c == '\u{85}' || c == '\u{a0}' || c
        == '\u{1680}' || ('\u{2000}' <= c && c <= '\u{200a}') || c == '\u{2028}' || c == '\u{2029}'
        || c == '\u{202f}' || c == '\u{205f}' || c == '\u{3000}'
}

/// The text without the whitespace at its two ends.
pub fn trim(text: &str) -> (inner: &str)
    ensures
        inner@ == trimmed(text@),
{
    let chars = chars_of(text);
    let mut start: usize = 0;
    let mut end: usize = chars.len();
    assert(text@.subrange(0, end as int) == text@);
    while start < end && is_white_space(chars[start])
        invariant
            chars@ == text@,
            start <= end == chars@.len(),
            trimmed(text@) == trimmed(text@.subrange(start as int, end as int)),
        ensures
            start == end || !white_space(text@[start as int]),
        decreases end - start,
    {
        let ghost rest = text@.subrange(start as int, end as int);
        assert(rest.skip(1) == text@.subrange(start + 1, end as int));
        start += 1;
    }
    while start < end && is_white_space(chars[end - 1])
        invariant
            chars@ == text@,
            start <= end <= chars@.len(),
            start == end || !white_space(text@[start as int]),
            trimmed(text@) == trimmed(text@.subrange(start as int, end as int)),
        ensures
            trimmed(text@.subrange(start as int, end as int)) == text@.subrange(
                start as int,
                end as int,
            ),
        decreases end - start,
    {
        let ghost rest = text@.subrange(start as int, end as int);
        assert(rest.drop_last() == text@.subrange(start as int, end - 1));
        end -= 1;
    }
    text.substring_char(start, end)
}

/// Whether a text holds nothing but whitespace.
fn is_blank_text(text: &str) -> (yes: bool)
    ensures
        yes == blank_text(text@),
{
    let chars = chars_of(text);
    let mut i: usize = 0;
    while i < chars.len()
        invariant
            chars@ == text@,
            i <= chars@.len(),
            forall|j: int| 0 <= j < i ==> white_space(#[trigger] text@[j]),
        decreases chars@.len() - i,
    {
        if !is_white_space(chars[i]) {
            assert(!white_space(text@[i as int]));
            return false;
        }
        i += 1;
    }
    true
}

/// Whether two texts are the same.
pub(crate) fn same_text(a: &str, b: &str) -> (yes: bool)
    ensures
        yes == (a@ == b@),
{
    let x = a.as_bytes();
    let y = b.as_bytes();
    if x.len() != y.len() {
        return false;
    }
    let mut i: usize = 0;
    while i < x.len()
        invariant
            x@ == encode_utf8(a@),
            y@ == encode_utf8(b@),
            i <= x@.len() == y@.len(),
            forall|j: int| 0 <= j < i ==> x@[j] == y@[j],
        decreases x@.len() - i,
    {
        if x[i] != y[i] {
            return false;
        }
        i += 1;
    }
    proof {
        assert(x@ == y@);
        encode_utf8_decode_utf8(a@);
        encode_utf8_decode_utf8(b@);
    }
    true
}

/// The line without a carriage return at its end.
fn strip_cr(line: &str) -> (stripped: &str)
    ensures
        stripped@ == without_cr(line@),
{
    let n: usize = line.unicode_len();
    if n > 0 && line.get_char(n - 1) == '\r' {
        line.substring_char(0, n - 1)
    } else {
        line
    }
}

/// The bytes from `start` to the first line feed, at `end`, are the first line of
/// the text that starts there, and the others come behind that line feed.
proof fn lemma_line_bytes(bytes: Seq<u8>, start: int, end: int, rest: Seq<char>)
    requires
        0 <= start <= end <= bytes.len(),
        bytes.skip(start) == encode_utf8(rest),
        forall|i: int| start <= i < end ==> #[trigger] bytes[i] != LF,
        end == bytes.len() || bytes[end] == LF,
    ensures
        ({
            let at = first_index(rest, '\n') as int;
            &&& bytes.subrange(start, end) == encode_utf8(rest.take(at))
            &&& end == bytes.len() <==> at == rest.len()
            &&& end < bytes.len() ==> bytes.skip(end + 1) == encode_utf8(rest.skip(at + 1))
        }),
{
    let at = first_index(rest, '\n') as int;
    let head = encode_utf8(rest.take(at));
    let here = bytes.skip(start);
    lemma_encode_first(rest, '\n');
    assert forall|i: int| 0 <= i < head.len() implies #[trigger] head[i] == here[i] by {
    }
    if at < rest.len() {
        let k = head.len() as int;
        assert(here.len() > k);
        assert(here[k] == LF);
        assert(bytes.skip(start)[k] == bytes[k + start]);
        assert(end <= start + k);
    }
    if end - start < head.len() {
        assert(head[end - start] == bytes[end]);
    }
    assert(end - start == head.len());
    assert(bytes.subrange(start, end) == head);
    if at < rest.len() {
        assert(bytes.skip(end + 1) == here.skip(head.len() as int + 1));
        assert(here.skip(head.len() as int + 1) == encode_utf8(rest.skip(at + 1)));
    }
}

/// Splits text into logical lines: at every line feed, each line without a
/// carriage return at its end, and without the empty line that a final line
/// feed leaves.
pub fn split_logical(s: &str) -> (lines: Vec<&str>)
    ensures
        slices(lines@) == logical_lines(s@),
{
    let bytes = s.as_bytes();
    let mut lines: Vec<&str> = Vec::new();
    let mut start: usize = 0;
    let ghost all = without_crs(pieces(s@));
    let ghost mut rest = s@;
    assert(slices(lines@) + all == all);
    assert(bytes@.skip(0) == bytes@);
    loop
        invariant_except_break
            start <= bytes@.len(),
            bytes@.skip(start as int) == encode_utf8(rest),
            slices(lines@) + without_crs(pieces(rest)) == all,
        ensures
            slices(lines@) == all,
            lines@.len() > 0,
        decreases bytes@.len() - start,
    {
        let ghost before = slices(lines@);
        let ghost at = first_index(rest, '\n') as int;
        let ghost line = rest.take(at);
        let mut end: usize = start;
        while end < bytes.len() && bytes[end] != LF
            invariant
                start <= end <= bytes@.len(),
                forall|i: int| start <= i < end ==> #[trigger] bytes@[i] != LF,
            ensures
                end == bytes@.len() || bytes@[end as int] == LF,
            decreases bytes@.len() - end,
        {
            end += 1;
        }
        proof {
            lemma_line_bytes(bytes@, start as int, end as int, rest);
            encode_utf8_valid_utf8(line);
            encode_utf8_decode_utf8(line);
        }
        match utf8_text(vstd::slice::slice_subrange(bytes, start, end)) {
            Some(text) => {
                assert(text@ == line);
                lines.push(strip_cr(text));
                assert(slices(lines@) == before.push(without_cr(line)));
            },
            None => {
                assert(false);
            },
        }
        if end == bytes.len() {
            assert(line == rest);
            assert(pieces(rest) == seq![line]);
            assert(without_crs(pieces(rest)) == seq![without_cr(line)]);
            assert(slices(lines@) == before + seq![without_cr(line)]);
            break;
        }
        proof {
            let after = rest.skip(at + 1);
            assert(pieces(rest) == seq![line] + pieces(after));
            assert(without_crs(pieces(rest)) == seq![without_cr(line)] + without_crs(
                pieces(after),
            ));
            assert(slices(lines@) + without_crs(pieces(after)) == before + (
            seq![without_cr(line)] + without_crs(pieces(after))));
            rest = after;
        }
        start = end + 1;
    }
    let n: usize = lines.len();
    assert(slices(lines@).last() == lines@[n - 1]@);
    if lines[n - 1].is_empty() {
        lines.pop();
        assert(slices(lines@) == all.drop_last());
    }
    lines
}

/// Lines without the blank ones at the two ends, copied out.
pub fn trim_blank_lines(lines: &[&str]) -> (kept: Vec<String>)
    ensures
        texts(kept@) == trimmed_lines(slices(lines@)),
{
    let ghost all = slices(lines@);
    let mut start: usize = 0;
    let mut end: usize = lines.len();
    assert(all.subrange(0, end as int) == all);
    while start < end && is_blank_text(lines[start])
        invariant
            all == slices(lines@),
            start <= end == lines@.len(),
            trimmed_lines(all) == trimmed_lines(all.subrange(start as int, end as int)),
        ensures
            start == end || !blank_text(all[start as int]),
        decreases end - start,
    {
        assert(all.subrange(start as int, end as int).skip(1) == all.subrange(
            start + 1,
            end as int,
        ));
        start += 1;
    }
    while start < end && is_blank_text(lines[end - 1])
        invariant
            all == slices(lines@),
            start <= end <= lines@.len(),
            start == end || !blank_text(all[start as int]),
            trimmed_lines(all) == trimmed_lines(all.subrange(start as int, end as int)),
        ensures
            trimmed_lines(all.subrange(start as int, end as int)) == all.subrange(
                start as int,
                end as int,
            ),
        decreases end - start,
    {
        assert(all.subrange(start as int, end as int).drop_last() == all.subrange(
            start as int,
            end - 1,
        ));
        end -= 1;
    }
    let mut kept: Vec<String> = Vec::new();
    let mut i: usize = start;
    while i < end
        invariant
            all == slices(lines@),
            start <= i <= end <= lines@.len(),
            texts(kept@) == all.subrange(start as int, i as int),
        decreases end - i,
    {
        let ghost before = texts(kept@);
        let copy = lines[i].to_owned();
        assert(copy@ == all[i as int]);
        kept.push(copy);
        assert(texts(kept@) == before.push(all[i as int]));
        assert(all.subrange(start as int, i + 1) == before.push(all[i as int]));
        i += 1;
    }
    kept
}

/// The lines of a block, without the blank ones at its two ends.
pub fn block_lines(s: &str) -> (block: Vec<String>)
    ensures
        texts(block@) == trimmed_lines(logical_lines(s@)),
{
    trim_blank_lines(split_logical(s).as_slice())
}

/// The lines that an edit from `old` to `new` adds. Lines that both share at
/// the front and at the back merely pass through the edit and do not count.
pub fn added_lines(old: &str, new: &str) -> (block: Vec<String>)
    ensures
        texts(block@) == added(logical_lines(old@), logical_lines(new@)),
{
    let old_l = split_logical(old);
    let new_l = split_logical(new);
    let ghost a = slices(old_l@);
    let ghost b = slices(new_l@);
    let mut lead: usize = 0;
    assert(a.skip(0) == a && b.skip(0) == b);
    while lead < old_l.len() && lead < new_l.len() && same_text(old_l[lead], new_l[lead])
        invariant
            a == slices(old_l@),
            b == slices(new_l@),
            lead <= a.len(),
            lead <= b.len(),
            shared_front(a, b) == lead + shared_front(a.skip(lead as int), b.skip(lead as int)),
        ensures
            shared_front(a.skip(lead as int), b.skip(lead as int)) == 0,
        decreases a.len() - lead,
    {
        assert(a.skip(lead as int).skip(1) == a.skip(lead + 1));
        assert(b.skip(lead as int).skip(1) == b.skip(lead + 1));
        lead += 1;
    }
    let ghost x = a.skip(lead as int);
    let ghost y = b.skip(lead as int);
    let mut trail: usize = 0;
    assert(x.take(x.len() as int) == x && y.take(y.len() as int) == y);
    while trail < old_l.len() - lead && trail < new_l.len() - lead && same_text(
        old_l[old_l.len() - 1 - trail],
        new_l[new_l.len() - 1 - trail],
    )
        invariant
            a == slices(old_l@),
            b == slices(new_l@),
            lead <= a.len(),
            lead <= b.len(),
            x == a.skip(lead as int),
            y == b.skip(lead as int),
            trail <= x.len(),
            trail <= y.len(),
            shared_back(x, y) == trail + shared_back(
                x.take(x.len() - trail),
                y.take(y.len() - trail),
            ),
        ensures
            shared_back(x.take(x.len() - trail), y.take(y.len() - trail)) == 0,
        decreases x.len() - trail,
    {
        assert(x.take(x.len() - trail).drop_last() == x.take(x.len() - trail - 1));
        assert(y.take(y.len() - trail).drop_last() == y.take(y.len() - trail - 1));
        trail += 1;
    }
    let end: usize = new_l.len() - trail;
    let rest = vstd::slice::slice_subrange(new_l.as_slice(), lead, end);
    assert(slices(rest@) == b.subrange(lead as int, end as int));
    trim_blank_lines(rest)
}

} // verus!
