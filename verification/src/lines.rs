//! The text model: a file as physical lines that keep their own terminators.
//!
//! A line ends with a line feed, except that the last line of a file may lack
//! one. The content of a line, for addressing and display, leaves out that
//! line feed and a carriage return right before it.

use vstd::prelude::*;

verus! {

/// The line feed byte.
pub const LF: u8 = 10;

/// The carriage return byte.
pub const CR: u8 = 13;

/// A file as an ordered list of physical lines, each with its terminator
/// exactly as it appeared. The last one lacks a terminator where the file did
/// not end with a newline.
pub type Lines = Vec<Vec<u8>>;

/// The bytes of each line.
pub open spec fn rows(lines: Seq<Vec<u8>>) -> Seq<Seq<u8>> {
    lines.map_values(|line: Vec<u8>| line@)
}

/// Length of the first line of `bytes`, its line feed counted.
pub open spec fn first_line_len(bytes: Seq<u8>) -> nat
    decreases bytes.len(),
{
    if bytes.len() == 0 {
        0
    } else if bytes[0] == LF {
        1
    } else {
        1 + first_line_len(bytes.skip(1))
    }
}

/// `bytes` cut after every line feed; the last line may lack one, and no line
/// is empty.
pub open spec fn split_lines(bytes: Seq<u8>) -> Seq<Seq<u8>>
    decreases bytes.len(),
{
    if bytes.len() == 0 {
        seq![]
    } else {
        proof {
            lemma_first_line_len(bytes);
        }
        let n = first_line_len(bytes) as int;
        seq![bytes.take(n)] + split_lines(bytes.skip(n))
    }
}

/// The lines one after another: what a file of these lines holds.
pub open spec fn flatten(lines: Seq<Seq<u8>>) -> Seq<u8>
    decreases lines.len(),
{
    if lines.len() == 0 {
        seq![]
    } else {
        lines[0] + flatten(lines.skip(1))
    }
}

/// The line ends with a line feed.
pub open spec fn terminated(line: Seq<u8>) -> bool {
    line.len() > 0 && line.last() == LF
}

/// Length of a line's content: the line feed and a carriage return right
/// before it are left out.
pub open spec fn logical_len(line: Seq<u8>) -> int {
    if !terminated(line) {
        line.len() as int
    } else if line.len() > 1 && line[line.len() - 2] == CR {
        line.len() - 2
    } else {
        line.len() - 1
    }
}

/// A line's content.
pub open spec fn logical(line: Seq<u8>) -> Seq<u8> {
    line.take(logical_len(line))
}

/// The line, with a line feed added where it had none.
pub open spec fn with_terminator(line: Seq<u8>) -> Seq<u8> {
    if terminated(line) {
        line
    } else {
        line.push(LF)
    }
}

/// ASCII whitespace: space, tab, line feed, form feed, carriage return.
pub open spec fn ascii_space(byte: u8) -> bool {
    byte == 32 || byte == 9 || byte == 10 || byte == 12 || byte == 13
}

/// The content of the line holds nothing but ASCII whitespace.
pub open spec fn blank(line: Seq<u8>) -> bool {
    forall|i: int| 0 <= i < logical(line).len() ==> ascii_space(#[trigger] logical(line)[i])
}

/// The line ends with carriage return and line feed.
pub open spec fn crlf(line: Seq<u8>) -> bool {
    line.len() >= 2 && line[line.len() - 2] == CR && line[line.len() - 1] == LF
}

/// Logical content of a line for guard matching: the bytes without the
/// terminator.
pub fn content(line: &[u8]) -> (text: &[u8])
    ensures
        text@ == logical(line@),
{
    let mut end: usize = line.len();
    if end > 0 && line[end - 1] == LF {
        end -= 1;
        if end > 0 && line[end - 1] == CR {
            end -= 1;
        }
    }
    vstd::slice::slice_subrange(line, 0, end)
}

/// Whether a physical line carries a line feed.
pub fn has_terminator(line: &[u8]) -> (yes: bool)
    ensures
        yes == terminated(line@),
{
    line.len() > 0 && line[line.len() - 1] == LF
}

/// Makes a line end with a line feed, adding a bare one where it is missing.
pub fn ensure_terminator(line: &mut Vec<u8>)
    ensures
        final(line)@ == with_terminator(old(line)@),
{
    if !has_terminator(line.as_slice()) {
        line.push(LF);
    }
}

/// Takes a line's terminator away, so that it can end a file that has no
/// final newline; the content stays as it is.
pub fn strip_terminator(line: &mut Vec<u8>)
    ensures
        final(line)@ == logical(old(line)@),
{
    if has_terminator(line.as_slice()) {
        line.pop();
        if line.len() > 0 && line[line.len() - 1] == CR {
            line.pop();
        }
    }
    assert(line@ == logical(old(line)@));
}

/// Whether a line is blank: empty, or whitespace only.
pub fn is_blank(line: &[u8]) -> (yes: bool)
    ensures
        yes == blank(line@),
{
    let text = content(line);
    let mut i: usize = 0;
    while i < text.len()
        invariant
            i <= text@.len(),
            text@ == logical(line@),
            forall|j: int| 0 <= j < i ==> ascii_space(#[trigger] text@[j]),
        decreases text@.len() - i,
    {
        let byte = text[i];
        if !(byte == 32 || byte == 9 || byte == 10 || byte == 12 || byte == 13) {
            assert(!ascii_space(logical(line@)[i as int]));
            return false;
        }
        i += 1;
    }
    true
}

/// The bytes of a file that holds the given lines.
pub fn file_bytes(lines: &Lines) -> (bytes: Vec<u8>)
    ensures
        bytes@ == flatten(rows(lines@)),
{
    let mut bytes: Vec<u8> = Vec::new();
    let mut i: usize = 0;
    let ghost all = rows(lines@);
    assert(all.take(0) == Seq::<Seq<u8>>::empty());
    while i < lines.len()
        invariant
            i <= lines@.len(),
            all == rows(lines@),
            bytes@ == flatten(all.take(i as int)),
        decreases lines@.len() - i,
    {
        let ghost before = bytes@;
        bytes.extend_from_slice(lines[i].as_slice());
        assert(bytes@ == before + all[i as int]);
        proof {
            lemma_flatten_push(all.take(i as int), all[i as int]);
            assert(all.take(i + 1) == all.take(i as int).push(all[i as int]));
        }
        i += 1;
    }
    assert(all.take(i as int) == all);
    bytes
}

/// Laying out two runs of lines one after the other joins their bytes.
pub proof fn lemma_flatten_add(a: Seq<Seq<u8>>, b: Seq<Seq<u8>>)
    ensures
        flatten(a + b) == flatten(a) + flatten(b),
    decreases a.len(),
{
    if a.len() == 0 {
        assert(a + b == b);
    } else {
        lemma_flatten_add(a.skip(1), b);
        assert((a + b).skip(1) == a.skip(1) + b);
    }
}

proof fn lemma_flatten_push(a: Seq<Seq<u8>>, line: Seq<u8>)
    ensures
        flatten(a.push(line)) == flatten(a) + line,
{
    lemma_flatten_add(a, seq![line]);
    assert(a + seq![line] == a.push(line));
    assert(seq![line].skip(1) == Seq::<Seq<u8>>::empty());
    reveal_with_fuel(flatten, 2);
    assert(flatten(seq![line]) == line);
}

/// The first line of some bytes lies within them and is not empty.
pub proof fn lemma_first_line_len(bytes: Seq<u8>)
    ensures
        first_line_len(bytes) <= bytes.len(),
        bytes.len() > 0 ==> first_line_len(bytes) > 0,
    decreases bytes.len(),
{
    if bytes.len() > 0 && bytes[0] != LF {
        lemma_first_line_len(bytes.skip(1));
    }
}

} // verus!
