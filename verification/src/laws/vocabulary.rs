//! The words that other laws are told in, told in bytes and characters.

use vstd::prelude::*;

use crate::laws::texts::{joined, lacks, lemma_pieces};
use crate::lines::{
    ascii_space, blank, crlf, flatten, lemma_flatten_add, logical, terminated, with_terminator,
};
use crate::numeral::{decimal_text, signed_text};
use crate::search::{first_index, lemma_first_index, occurs, occurs_at};
use crate::splice::{newline_of, run_above, run_below};
use crate::text::{
    added, blank_text, logical_lines, pieces, shared_back, shared_front, trimmed, trimmed_lines,
    white_space, without_cr, without_crs,
};

verus! {

/// A line is its content and its ending. The ending is nothing, a line feed, or
/// a carriage return and a line feed, and the content gives away as much of it
/// as there is.
pub proof fn lines_are_content_and_ending(line: Seq<u8>)
    ensures
        ({
            let text = logical(line);
            let end = line.skip(text.len() as int);
            &&& line == text + end
            &&& end == Seq::<u8>::empty() || end == seq![10u8] || end == seq![13u8, 10u8]
            &&& end == Seq::<u8>::empty() ==> !(line.len() > 0 && line.last() == 10)
            &&& end == seq![10u8] ==> !(text.len() > 0 && text.last() == 13)
            &&& terminated(line) <==> end.len() > 0
            &&& crlf(line) <==> end.len() == 2
        }),
{
    let text = logical(line);
    let end = line.skip(text.len() as int);
    assert(line == text + end);
    if terminated(line) {
        if line.len() > 1 && line[line.len() - 2] == 13 {
            assert(end == seq![13u8, 10u8]);
        } else {
            assert(end == seq![10u8]);
        }
    } else {
        assert(end == Seq::<u8>::empty());
    }
}

/// A line that is given a terminator ends with a line feed, and is otherwise
/// the line it was; one that had it stays as it is.
pub proof fn terminators_are_added_once(line: Seq<u8>)
    ensures
        line.len() > 0 && line.last() == 10 ==> with_terminator(line) == line,
        !(line.len() > 0 && line.last() == 10) ==> with_terminator(line) == line + seq![10u8],
        with_terminator(line).last() == 10,
{
}

/// A line is blank where every byte of it is a space, a tab, a line feed, a form
/// feed or a carriage return.
pub proof fn blank_lines_are_white(line: Seq<u8>)
    ensures
        blank(line) <==> forall|i: int|
            0 <= i < line.len() ==> line[i] == 32 || line[i] == 9 || line[i] == 10 || line[i] == 12
                || #[trigger] line[i] == 13,
{
    let text = logical(line);
    lines_are_content_and_ending(line);
    let end = line.skip(text.len() as int);
    if blank(line) {
        assert forall|i: int| 0 <= i < line.len() implies line[i] == 32 || line[i] == 9 || line[i]
            == 10 || line[i] == 12 || #[trigger] line[i] == 13 by {
            if i < text.len() {
                assert(line[i] == text[i]);
            } else {
                assert(line[i] == end[i - text.len()]);
            }
        }
    } else {
        let i = choose|i: int|
            0 <= i < text.len() && !ascii_space(#[trigger] text[i]);
        assert(text[i] == line[i]);
    }
}

/// The run above an index is all the blank lines that stand right above it, and
/// no line more.
pub proof fn runs_above_are_whole(lines: Seq<Seq<u8>>, gap: int)
    requires
        0 <= gap <= lines.len(),
    ensures
        run_above(lines, gap) <= gap,
        forall|i: int| gap - run_above(lines, gap) <= i < gap ==> blank(#[trigger] lines[i]),
        run_above(lines, gap) < gap ==> !blank(lines[gap - run_above(lines, gap) - 1]),
    decreases gap,
{
    if gap > 0 && blank(lines[gap - 1]) {
        runs_above_are_whole(lines, gap - 1);
    }
}

/// The run below an index is all the blank lines that stand from there on, and
/// no line more.
pub proof fn runs_below_are_whole(lines: Seq<Seq<u8>>, gap: int)
    requires
        0 <= gap <= lines.len(),
    ensures
        gap + run_below(lines, gap) <= lines.len(),
        forall|i: int| gap <= i < gap + run_below(lines, gap) ==> blank(#[trigger] lines[i]),
        gap + run_below(lines, gap) < lines.len() ==> !blank(
            lines[gap + run_below(lines, gap)],
        ),
    decreases lines.len() - gap,
{
    if gap < lines.len() && blank(lines[gap]) {
        runs_below_are_whole(lines, gap + 1);
    }
}

/// A file with a line that ends with carriage return and line feed gets such
/// blank lines, and any other gets line feeds.
pub proof fn newlines_follow_the_file(lines: Seq<Seq<u8>>)
    ensures
        (exists|i: int|
            0 <= i < lines.len() && (#[trigger] lines[i]).len() >= 2 && lines[i][lines[i].len() - 2]
                == 13 && lines[i].last() == 10) ==> newline_of(lines) == seq![13u8, 10u8],
        (forall|i: int|
            0 <= i < lines.len() ==> !((#[trigger] lines[i]).len() >= 2 && lines[i][lines[i].len()
                - 2] == 13 && lines[i].last() == 10)) ==> newline_of(lines) == seq![10u8],
{
    if exists|i: int|
        0 <= i < lines.len() && (#[trigger] lines[i]).len() >= 2 && lines[i][lines[i].len() - 2]
            == 13 && lines[i].last() == 10 {
        let i = choose|i: int|
            0 <= i < lines.len() && (#[trigger] lines[i]).len() >= 2 && lines[i][lines[i].len()
                - 2] == 13 && lines[i].last() == 10;
        assert(crlf(lines[i]));
    }
}

/// A file holds its lines end to end.
pub proof fn files_hold_lines_end_to_end(lines: Seq<Seq<u8>>, line: Seq<u8>)
    ensures
        flatten(Seq::<Seq<u8>>::empty()) == Seq::<u8>::empty(),
        flatten(lines.push(line)) == flatten(lines) + line,
{
    let last = seq![line];
    assert(lines.push(line) == lines + last);
    lemma_flatten_add(lines, last);
    assert(last.skip(1) == Seq::<Seq<u8>>::empty());
    reveal_with_fuel(flatten, 2);
    assert(flatten(last) == line);
}

/// Something occurs in something else where this is made of it and what comes
/// before and after.
pub proof fn occurrences_have_two_sides<T>(hay: Seq<T>, needle: Seq<T>)
    ensures
        occurs(hay, needle) <==> exists|a: Seq<T>, b: Seq<T>| hay == #[trigger] (a + needle + b),
        forall|at: int|
            occurs_at(hay, needle, at) <==> 0 <= at && at + needle.len() <= hay.len() && forall|
                i: int,
            |
                0 <= i < needle.len() ==> #[trigger] needle[i] == hay[at + i],
{
    if occurs(hay, needle) {
        let at = choose|at: int| occurs_at(hay, needle, at);
        let a = hay.take(at);
        let b = hay.skip(at + needle.len());
        assert forall|i: int| 0 <= i < needle.len() implies needle[i] == hay[at + i] by {
            assert(hay.subrange(at, at + needle.len())[i] == needle[i]);
        }
        assert(hay =~= a + needle + b);
    }
    if exists|a: Seq<T>, b: Seq<T>| hay == #[trigger] (a + needle + b) {
        let (a, b) = choose|a: Seq<T>, b: Seq<T>| hay == #[trigger] (a + needle + b);
        let at = a.len() as int;
        assert(hay.subrange(at, at + needle.len()) =~= needle);
        assert(occurs_at(hay, needle, at));
    }
    assert forall|at: int|
        occurs_at(hay, needle, at) <==> 0 <= at && at + needle.len() <= hay.len() && forall|i: int|
            0 <= i < needle.len() ==> #[trigger] needle[i] == hay[at + i] by {
        if 0 <= at && at + needle.len() <= hay.len() {
            let part = hay.subrange(at, at + needle.len());
            if occurs_at(hay, needle, at) {
                assert forall|i: int| 0 <= i < needle.len() implies #[trigger] needle[i] == hay[at
                    + i] by {
                    assert(part[i] == needle[i]);
                }
            }
            if forall|i: int| 0 <= i < needle.len() ==> #[trigger] needle[i] == hay[at + i] {
                assert(part =~= needle);
            }
        }
    }
}

/// The text is cut `i` characters from the front and behind the `j`th: what is
/// cut off is whitespace, and what is left starts and ends with something else.
pub open spec fn bare_part(text: Seq<char>, part: Seq<char>, i: int, j: int) -> bool {
    &&& 0 <= i <= j <= text.len()
    &&& part == text.subrange(i, j)
    &&& forall|k: int| 0 <= k < i || j <= k < text.len() ==> white_space(#[trigger] text[k])
    &&& i < j ==> !white_space(text[i]) && !white_space(text[j - 1])
}

proof fn lemma_bare_front(text: Seq<char>, part: Seq<char>, i: int, j: int)
    requires
        text.len() > 0,
        white_space(text[0]),
        bare_part(text.skip(1), part, i, j),
    ensures
        bare_part(text, part, i + 1, j + 1),
{
    let rest = text.skip(1);
    assert(rest.subrange(i, j) =~= text.subrange(i + 1, j + 1));
    assert forall|k: int| 0 <= k < i + 1 || j + 1 <= k < text.len() implies white_space(
        #[trigger] text[k],
    ) by {
        if k > 0 {
            assert(rest[k - 1] == text[k]);
        }
    }
}

proof fn lemma_bare_back(text: Seq<char>, part: Seq<char>, i: int, j: int)
    requires
        text.len() > 0,
        white_space(text.last()),
        bare_part(text.drop_last(), part, i, j),
    ensures
        bare_part(text, part, i, j),
{
    let rest = text.drop_last();
    assert(rest.subrange(i, j) =~= text.subrange(i, j));
    assert forall|k: int| 0 <= k < i || j <= k < text.len() implies white_space(
        #[trigger] text[k],
    ) by {
        if k < text.len() - 1 {
            assert(rest[k] == text[k]);
        }
    }
}

/// Trimming takes all whitespace from both ends of a text, and nothing else.
pub proof fn trimming_takes_white_ends(text: Seq<char>)
    ensures
        exists|i: int, j: int| #[trigger] bare_part(text, trimmed(text), i, j),
    decreases text.len(),
{
    if text.len() > 0 && white_space(text[0]) {
        let rest = text.skip(1);
        trimming_takes_white_ends(rest);
        let (i, j) = choose|i: int, j: int| #[trigger] bare_part(rest, trimmed(rest), i, j);
        lemma_bare_front(text, trimmed(rest), i, j);
        assert(trimmed(text) == trimmed(rest));
        assert(bare_part(text, trimmed(text), i + 1, j + 1));
    } else if text.len() > 0 && white_space(text.last()) {
        let rest = text.drop_last();
        trimming_takes_white_ends(rest);
        let (i, j) = choose|i: int, j: int| #[trigger] bare_part(rest, trimmed(rest), i, j);
        lemma_bare_back(text, trimmed(rest), i, j);
        assert(trimmed(text) == trimmed(rest));
        assert(bare_part(text, trimmed(text), i, j));
    } else {
        assert(text.subrange(0, text.len() as int) =~= text);
        assert(bare_part(text, trimmed(text), 0, text.len() as int));
    }
}

/// The lines are cut `i` lines from the front and behind the `j`th: what is cut
/// off is blank, and what is left starts and ends with something else.
pub open spec fn bare_lines(
    lines: Seq<Seq<char>>,
    part: Seq<Seq<char>>,
    i: int,
    j: int,
) -> bool {
    &&& 0 <= i <= j <= lines.len()
    &&& part == lines.subrange(i, j)
    &&& forall|k: int| 0 <= k < i || j <= k < lines.len() ==> blank_text(#[trigger] lines[k])
    &&& i < j ==> !blank_text(lines[i]) && !blank_text(lines[j - 1])
}

proof fn lemma_left_front(lines: Seq<Seq<char>>, part: Seq<Seq<char>>, i: int, j: int)
    requires
        lines.len() > 0,
        blank_text(lines[0]),
        bare_lines(lines.skip(1), part, i, j),
    ensures
        bare_lines(lines, part, i + 1, j + 1),
{
    let rest = lines.skip(1);
    assert(rest.subrange(i, j) =~= lines.subrange(i + 1, j + 1));
    assert forall|k: int| 0 <= k < i + 1 || j + 1 <= k < lines.len() implies blank_text(
        #[trigger] lines[k],
    ) by {
        if k > 0 {
            assert(rest[k - 1] == lines[k]);
        }
    }
}

proof fn lemma_left_back(lines: Seq<Seq<char>>, part: Seq<Seq<char>>, i: int, j: int)
    requires
        lines.len() > 0,
        blank_text(lines.last()),
        bare_lines(lines.drop_last(), part, i, j),
    ensures
        bare_lines(lines, part, i, j),
{
    let rest = lines.drop_last();
    assert(rest.subrange(i, j) =~= lines.subrange(i, j));
    assert forall|k: int| 0 <= k < i || j <= k < lines.len() implies blank_text(
        #[trigger] lines[k],
    ) by {
        if k < lines.len() - 1 {
            assert(rest[k] == lines[k]);
        }
    }
}

/// Trimming takes all blank lines from both ends of a block, and nothing else.
pub proof fn trimming_takes_blank_lines(lines: Seq<Seq<char>>)
    ensures
        exists|i: int, j: int| #[trigger] bare_lines(lines, trimmed_lines(lines), i, j),
    decreases lines.len(),
{
    if lines.len() > 0 && blank_text(lines[0]) {
        let rest = lines.skip(1);
        trimming_takes_blank_lines(rest);
        let (i, j) = choose|i: int, j: int| #[trigger] bare_lines(rest, trimmed_lines(rest), i, j);
        lemma_left_front(lines, trimmed_lines(rest), i, j);
        assert(trimmed_lines(lines) == trimmed_lines(rest));
        assert(bare_lines(lines, trimmed_lines(lines), i + 1, j + 1));
    } else if lines.len() > 0 && blank_text(lines.last()) {
        let rest = lines.drop_last();
        trimming_takes_blank_lines(rest);
        let (i, j) = choose|i: int, j: int| #[trigger] bare_lines(rest, trimmed_lines(rest), i, j);
        lemma_left_back(lines, trimmed_lines(rest), i, j);
        assert(trimmed_lines(lines) == trimmed_lines(rest));
        assert(bare_lines(lines, trimmed_lines(lines), i, j));
    } else {
        assert(lines.subrange(0, lines.len() as int) =~= lines);
        assert(bare_lines(lines, trimmed_lines(lines), 0, lines.len() as int));
    }
}

/// A text is blank where it holds nothing but whitespace.
pub proof fn blank_texts_are_white(text: Seq<char>)
    ensures
        blank_text(text) <==> forall|i: int|
            0 <= i < text.len() ==> white_space(#[trigger] text[i]),
        blank_text(text) <==> trimmed(text).len() == 0,
{
    trimming_takes_white_ends(text);
    let (i, j) = choose|i: int, j: int| #[trigger] bare_part(text, trimmed(text), i, j);
    if i < j {
        assert(!white_space(text[i]));
    }
}

/// `lead` lines at the front of `b` are those of `a`, and `trail` lines at its
/// back, and neither run could be longer.
pub open spec fn shared_ends(
    a: Seq<Seq<char>>,
    b: Seq<Seq<char>>,
    lead: int,
    trail: int,
) -> bool {
    &&& 0 <= lead && 0 <= trail
    &&& lead + trail <= a.len()
    &&& lead + trail <= b.len()
    &&& forall|i: int| 0 <= i < lead ==> #[trigger] a[i] == b[i]
    &&& lead < a.len() && lead < b.len() ==> a[lead] != b[lead]
    &&& forall|i: int| 0 <= i < trail ==> #[trigger] a[a.len() - 1 - i] == b[b.len() - 1 - i]
    &&& lead + trail < a.len() && lead + trail < b.len() ==> a[a.len() - 1 - trail] != b[b.len()
        - 1 - trail]
}

proof fn lemma_front(a: Seq<Seq<char>>, b: Seq<Seq<char>>)
    ensures
        ({
            let lead = shared_front(a, b) as int;
            &&& lead <= a.len() && lead <= b.len()
            &&& forall|i: int| 0 <= i < lead ==> #[trigger] a[i] == b[i]
            &&& lead < a.len() && lead < b.len() ==> a[lead] != b[lead]
        }),
    decreases a.len(),
{
    if a.len() > 0 && b.len() > 0 && a[0] == b[0] {
        lemma_front(a.skip(1), b.skip(1));
        let lead = shared_front(a, b) as int;
        assert forall|i: int| 0 <= i < lead implies #[trigger] a[i] == b[i] by {
            if i > 0 {
                assert(a.skip(1)[i - 1] == b.skip(1)[i - 1]);
            }
        }
        if lead < a.len() && lead < b.len() {
            assert(a.skip(1)[lead - 1] == a[lead]);
            assert(b.skip(1)[lead - 1] == b[lead]);
        }
    }
}

proof fn lemma_back(a: Seq<Seq<char>>, b: Seq<Seq<char>>)
    ensures
        ({
            let trail = shared_back(a, b) as int;
            &&& trail <= a.len() && trail <= b.len()
            &&& forall|i: int|
                0 <= i < trail ==> #[trigger] a[a.len() - 1 - i] == b[b.len() - 1 - i]
            &&& trail < a.len() && trail < b.len() ==> a[a.len() - 1 - trail] != b[b.len() - 1
                - trail]
        }),
    decreases a.len(),
{
    if a.len() > 0 && b.len() > 0 && a.last() == b.last() {
        let x = a.drop_last();
        let y = b.drop_last();
        lemma_back(x, y);
        let trail = shared_back(a, b) as int;
        assert forall|i: int| 0 <= i < trail implies #[trigger] a[a.len() - 1 - i] == b[b.len() - 1
            - i] by {
            if i > 0 {
                assert(x[x.len() - 1 - (i - 1)] == y[y.len() - 1 - (i - 1)]);
            }
        }
        if trail < a.len() && trail < b.len() {
            assert(x[x.len() - 1 - (trail - 1)] == a[a.len() - 1 - trail]);
            assert(y[y.len() - 1 - (trail - 1)] == b[b.len() - 1 - trail]);
        }
    }
}

/// What an edit adds are the new lines without the longest run that they share
/// with the old ones at the front and, of what is left, at the back, and
/// without blank lines at the ends.
pub proof fn added_lines_lie_between_shared_ends(a: Seq<Seq<char>>, b: Seq<Seq<char>>)
    ensures
        exists|lead: int, trail: int|
            #[trigger] shared_ends(a, b, lead, trail) && added(a, b) == trimmed_lines(
                b.subrange(lead, b.len() - trail),
            ),
{
    let lead = shared_front(a, b) as int;
    let x = a.skip(lead);
    let y = b.skip(lead);
    let trail = shared_back(x, y) as int;
    lemma_front(a, b);
    lemma_back(x, y);
    assert forall|i: int| 0 <= i < trail implies #[trigger] a[a.len() - 1 - i] == b[b.len() - 1
        - i] by {
        assert(x[x.len() - 1 - i] == y[y.len() - 1 - i]);
    }
    if lead + trail < a.len() && lead + trail < b.len() {
        assert(x[x.len() - 1 - trail] == a[a.len() - 1 - trail]);
        assert(y[y.len() - 1 - trail] == b[b.len() - 1 - trail]);
    }
    assert(shared_ends(a, b, lead, trail));
}

/// The two runs that a change shares at its ends are no matter of choice.
pub proof fn shared_ends_are_unique(
    a: Seq<Seq<char>>,
    b: Seq<Seq<char>>,
    lead: int,
    trail: int,
    front: int,
    back: int,
)
    requires
        shared_ends(a, b, lead, trail),
        shared_ends(a, b, front, back),
    ensures
        lead == front,
        trail == back,
{
    if lead < front {
        assert(a[lead] == b[lead]);
    }
    if front < lead {
        assert(a[front] == b[front]);
    }
    if trail < back {
        assert(a[a.len() - 1 - trail] == b[b.len() - 1 - trail]);
    }
    if back < trail {
        assert(a[a.len() - 1 - back] == b[b.len() - 1 - back]);
    }
}

/// The parts are what stands between the line feeds of the text.
pub open spec fn parts_of(text: Seq<char>, parts: Seq<Seq<char>>) -> bool {
    &&& parts.len() > 0
    &&& joined(parts) == text
    &&& forall|i: int| 0 <= i < parts.len() ==> lacks(#[trigger] parts[i], '\n')
}

/// The line is the part without a carriage return at its end.
pub open spec fn part_without_cr(line: Seq<char>, part: Seq<char>) -> bool {
    if part.len() > 0 && part.last() == '\r' {
        part == line.push('\r')
    } else {
        part == line
    }
}

/// The lines of a text are what stands between its line feeds, each without a
/// carriage return at its end. Only one line can be missing: the last, and only
/// where it is empty, and then it is.
pub proof fn lines_stand_between_newlines(text: Seq<char>)
    ensures
        exists|parts: Seq<Seq<char>>|
            {
                let lines = logical_lines(text);
                &&& #[trigger] parts_of(text, parts)
                &&& lines.len() == parts.len() || lines.len() == parts.len() - 1
                &&& forall|i: int|
                    0 <= i < lines.len() ==> part_without_cr(#[trigger] lines[i], parts[i])
                &&& lines.len() < parts.len() ==> part_without_cr(seq![], parts.last())
                &&& lines.len() == parts.len() ==> lines.last().len() > 0
            },
{
    let parts = pieces(text);
    let all = without_crs(parts);
    let lines = logical_lines(text);
    lemma_pieces(text, '\n');
    assert forall|i: int| 0 <= i < all.len() implies part_without_cr(
        #[trigger] all[i],
        parts[i],
    ) by {
        assert(all[i] == without_cr(parts[i]));
        if parts[i].len() > 0 && parts[i].last() == '\r' {
            assert(parts[i] == parts[i].drop_last().push('\r'));
        }
    }
    assert forall|i: int| 0 <= i < lines.len() implies part_without_cr(
        #[trigger] lines[i],
        parts[i],
    ) by {
        assert(lines[i] == all[i]);
    }
    assert(part_without_cr(all[all.len() - 1], parts.last()));
    if all.last().len() == 0 {
        assert(all.last() == Seq::<char>::empty());
    }
    assert(parts_of(text, parts));
}

/// The first of some items is where the item stands and nothing before it is
/// the item; where there is none, it is behind the last.
pub proof fn first_is_first<T>(s: Seq<T>, item: T, at: int)
    requires
        0 <= at <= s.len(),
        at < s.len() ==> s[at] == item,
        forall|i: int| 0 <= i < at ==> #[trigger] s[i] != item,
    ensures
        first_index(s, item) == at,
{
    lemma_first_index(s, item);
    let found = first_index(s, item) as int;
    if found < at {
        assert(s[found] != item);
    }
}

/// Whitespace are the space and the controls from tab to carriage return, the
/// next line, and the spaces and separators of other scripts; no other character
/// of ASCII is.
pub proof fn white_space_is_no_ink(c: char)
    ensures
        white_space(c) <==> {
            let code = c as u32;
            ||| 9 <= code <= 13 || code == 32 || code == 0x85 || code == 0xa0
            ||| code == 0x1680 || 0x2000 <= code <= 0x200a
            ||| code == 0x2028 || code == 0x2029 || code == 0x202f
            ||| code == 0x205f || code == 0x3000
        },
{
}

/// A numeral is made of digits, the first of them no zero unless it is the only
/// one, and ten times a number has its numeral with another digit behind.
pub proof fn numerals_are_plain(n: nat, digit: nat)
    requires
        digit < 10,
    ensures
        decimal_text(digit) == seq![(48 + digit) as char],
        n > 0 ==> decimal_text(10 * n + digit) == decimal_text(n).push((48 + digit) as char),
        n > 0 ==> decimal_text(n)[0] != '0',
    decreases n,
{
    if n >= 10 {
        numerals_are_plain(n / 10, n % 10);
        assert(10 * (n / 10) + n % 10 == n);
        assert(decimal_text(n)[0] == decimal_text(n / 10)[0]);
    }
    assert((10 * n + digit) / 10 == n);
    assert((10 * n + digit) % 10 == digit);
}

/// A number below zero has a minus in front of its numeral, and no other number
/// has a sign.
pub proof fn signs_are_minus(n: int)
    ensures
        n >= 0 ==> signed_text(n) == decimal_text(n as nat),
        n < 0 ==> signed_text(n) == seq!['-'] + decimal_text((-n) as nat),
{
    reveal_strlit("-");
    assert("-"@ =~= seq!['-']);
}

} // verus!
