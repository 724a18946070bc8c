//! Cutting a block of lines out of a file and setting it into one.
//!
//! The seams follow three rules. Lines are never joined: whatever follows a
//! line starts on a line of its own. A file keeps its trailing-newline state.
//! And a block that stood between blank lines is set off by as many blank
//! lines where it lands, while the doubled blank run it leaves behind shrinks
//! to the wider of the two.

use vstd::prelude::*;

use crate::lines::{
    blank, content, crlf, ensure_terminator, has_terminator, is_blank, logical, rows,
    strip_terminator, terminated, with_terminator, Lines, CR, LF,
};

verus! {

/// How many blank lines stand directly above index `gap`.
pub open spec fn run_above(lines: Seq<Seq<u8>>, gap: int) -> nat
    decreases gap,
{
    if gap > 0 && blank(lines[gap - 1]) {
        1 + run_above(lines, gap - 1)
    } else {
        0
    }
}

/// How many blank lines stand from index `gap` downward.
pub open spec fn run_below(lines: Seq<Seq<u8>>, gap: int) -> nat
    decreases lines.len() - gap,
{
    if gap < lines.len() && blank(lines[gap]) {
        1 + run_below(lines, gap + 1)
    } else {
        0
    }
}

/// Some line of the file ends with carriage return and line feed.
pub open spec fn uses_crlf(lines: Seq<Seq<u8>>) -> bool {
    exists|i: int| 0 <= i < lines.len() && crlf(#[trigger] lines[i])
}

/// A blank line in the file's own newline convention.
pub open spec fn newline_of(lines: Seq<Seq<u8>>) -> Seq<u8> {
    if uses_crlf(lines) {
        seq![CR, LF]
    } else {
        seq![LF]
    }
}

/// The lines, the last of them with a line feed.
pub open spec fn terminate_last(lines: Seq<Seq<u8>>) -> Seq<Seq<u8>> {
    if lines.len() == 0 {
        lines
    } else {
        lines.update(lines.len() - 1, with_terminator(lines.last()))
    }
}

/// The lines, ending without a terminator. A line that would be left without
/// any bytes goes, and the line above it loses its terminator in its place.
pub open spec fn unended(lines: Seq<Seq<u8>>) -> Seq<Seq<u8>>
    decreases lines.len(),
{
    if lines.len() == 0 || !terminated(lines.last()) {
        lines
    } else if logical(lines.last()).len() == 0 {
        unended(lines.drop_last())
    } else {
        lines.update(lines.len() - 1, logical(lines.last()))
    }
}

/// The lines, ending with a terminator or without one.
pub open spec fn ended(lines: Seq<Seq<u8>>, with_newline: bool) -> Seq<Seq<u8>> {
    if with_newline {
        terminate_last(lines)
    } else {
        unended(lines)
    }
}

/// Whether a file ends with a terminator; an empty file has no say in it.
pub open spec fn ending(lines: Seq<Seq<u8>>) -> Option<bool> {
    if lines.len() == 0 {
        None
    } else {
        Some(terminated(lines.last()))
    }
}

/// How many blanks to add so that `present` of them become `wanted`.
pub open spec fn shortfall(wanted: nat, present: nat) -> nat {
    if wanted > present {
        (wanted - present) as nat
    } else {
        0
    }
}

/// Blank lines to add above a block that lands at `gap` and had `wanted` of
/// them above it: none at the top of the file.
pub open spec fn leading_fill(lines: Seq<Seq<u8>>, gap: int, wanted: nat) -> nat {
    if gap > 0 {
        shortfall(wanted, run_above(lines, gap))
    } else {
        0
    }
}

/// Blank lines to add below a block that lands at `gap` and had `wanted` of
/// them below it: none at the end of the file.
pub open spec fn trailing_fill(lines: Seq<Seq<u8>>, gap: int, wanted: nat) -> nat {
    if gap < lines.len() {
        shortfall(wanted, run_below(lines, gap))
    } else {
        0
    }
}

/// The block as it stands after landing. Only its end can change: its last line
/// gets a terminator where something follows or where the file ends with one,
/// loses it where the file ends without one, and stays as it is in an empty
/// file.
pub open spec fn landed(block: Seq<Seq<u8>>, at_end: bool, end: Option<bool>) -> Seq<Seq<u8>> {
    if !at_end {
        terminate_last(block)
    } else {
        match end {
            Some(with_newline) => ended(block, with_newline),
            None => block,
        }
    }
}

/// `count` times the same line.
pub open spec fn repeated(line: Seq<u8>, count: nat) -> Seq<Seq<u8>> {
    Seq::new(count, |i: int| line)
}

/// The file after a block with `above` and `below` blank lines around it was
/// set in at index `gap`. `end` is how the file ends, and `newline` is an added
/// blank line.
pub open spec fn set_in(
    lines: Seq<Seq<u8>>,
    gap: int,
    block: Seq<Seq<u8>>,
    above: nat,
    below: nat,
    end: Option<bool>,
    newline: Seq<u8>,
) -> Seq<Seq<u8>> {
    let middle = landed(block, gap >= lines.len(), end);
    if middle.len() == 0 {
        lines
    } else {
        terminate_last(lines.take(gap)) + repeated(newline, leading_fill(lines, gap, above))
            + middle + repeated(newline, trailing_fill(lines, gap, below)) + lines.skip(gap)
    }
}

/// The file after a block with `above` and `below` blank lines around it was
/// set in at index `gap`, in the file's own ways.
pub open spec fn inserted(
    lines: Seq<Seq<u8>>,
    gap: int,
    block: Seq<Seq<u8>>,
    above: nat,
    below: nat,
) -> Seq<Seq<u8>> {
    set_in(lines, gap, block, above, below, ending(lines), newline_of(lines))
}

/// The lines other than `from` to `to`, counted from one, just as they are.
pub open spec fn without(lines: Seq<Seq<u8>>, from: int, to: int) -> Seq<Seq<u8>> {
    lines.take(from - 1) + lines.skip(to)
}

/// The file without the lines `from` to `to` (counted from one, both ends
/// out). Where these were the end of the file, what is left takes over the
/// file's trailing-newline state.
pub open spec fn removed(lines: Seq<Seq<u8>>, from: int, to: int) -> Seq<Seq<u8>> {
    if to < lines.len() {
        without(lines, from, to)
    } else {
        ended(without(lines, from, to), terminated(lines.last()))
    }
}

/// How many lines a seam gives up where a block with `lead` and `trail` blank
/// lines around it was taken out: the narrower of the two runs.
pub open spec fn overlap(lines: Seq<Seq<u8>>, seam: int, lead: nat, trail: nat) -> nat {
    let n = if lead < trail { lead } else { trail };
    if seam < 1 || seam - 1 + n > lines.len() {
        0
    } else {
        n
    }
}

/// The file after the doubled blank run at `seam` was narrowed.
pub open spec fn collapsed(lines: Seq<Seq<u8>>, seam: int, lead: nat, trail: nat) -> Seq<Seq<u8>> {
    let n = overlap(lines, seam, lead, trail);
    if n == 0 {
        lines
    } else {
        removed(lines, seam, seam - 1 + n)
    }
}

/// The index in front of which a block lands that is placed before or after
/// line `dest`; line zero is the top of the file.
pub open spec fn gap_of(dest: nat, before: bool) -> nat {
    if dest == 0 {
        0
    } else if before {
        (dest - 1) as nat
    } else {
        dest
    }
}

/// A run above an index is no longer than what is above it.
pub proof fn lemma_run_above_bound(lines: Seq<Seq<u8>>, gap: int)
    requires
        0 <= gap,
    ensures
        run_above(lines, gap) <= gap,
    decreases gap,
{
    if gap > 0 && blank(lines[gap - 1]) {
        lemma_run_above_bound(lines, gap - 1);
    }
}

/// A run below an index is no longer than what is below it.
pub proof fn lemma_run_below_bound(lines: Seq<Seq<u8>>, gap: int)
    requires
        gap <= lines.len(),
    ensures
        run_below(lines, gap) <= lines.len() - gap,
    decreases lines.len() - gap,
{
    if gap < lines.len() && blank(lines[gap]) {
        lemma_run_below_bound(lines, gap + 1);
    }
}

/// Counts the blank lines directly above index `gap`.
pub fn blank_run_above(lines: &Lines, gap: usize) -> (count: usize)
    requires
        gap <= lines@.len(),
    ensures
        count == run_above(rows(lines@), gap as int),
        count <= gap,
{
    let mut n: usize = 0;
    while gap > n && is_blank(lines[gap - 1 - n].as_slice())
        invariant
            n <= gap <= lines@.len(),
            run_above(rows(lines@), gap as int) == n + run_above(rows(lines@), gap - n),
        ensures
            run_above(rows(lines@), gap - n) == 0,
        decreases gap - n,
    {
        n += 1;
    }
    n
}

/// Counts the blank lines from index `gap` downward: none beyond the end.
pub fn blank_run_below(lines: &Lines, gap: usize) -> (count: usize)
    ensures
        count == run_below(rows(lines@), gap as int),
        gap <= lines@.len() ==> count <= lines@.len() - gap,
{
    if gap >= lines.len() {
        return 0;
    }
    let mut n: usize = 0;
    while n < lines.len() - gap && is_blank(lines[gap + n].as_slice())
        invariant
            gap + n <= lines@.len(),
            run_below(rows(lines@), gap as int) == n + run_below(rows(lines@), gap + n),
        ensures
            run_below(rows(lines@), gap + n) == 0,
        decreases lines@.len() - n,
    {
        n += 1;
    }
    n
}

/// The newline bytes for a blank line added to this file: carriage return and
/// line feed where any line has them, else a line feed.
pub fn newline(lines: &Lines) -> (bytes: Vec<u8>)
    ensures
        bytes@ == newline_of(rows(lines@)),
{
    let mut i: usize = 0;
    while i < lines.len()
        invariant
            i <= lines@.len(),
            forall|j: int| 0 <= j < i ==> !crlf(#[trigger] rows(lines@)[j]),
        decreases lines@.len() - i,
    {
        let n = lines[i].len();
        if n >= 2 && lines[i][n - 2] == CR && lines[i][n - 1] == LF {
            assert(crlf(rows(lines@)[i as int]));
            return vec![CR, LF];
        }
        i += 1;
    }
    vec![LF]
}

/// Makes lines end without a terminator. A line that would be left without any
/// bytes goes, and the line above it loses its terminator in its place.
fn unend(lines: &mut Lines)
    ensures
        rows(final(lines)@) == unended(rows(old(lines)@)),
{
    let ghost all = rows(lines@);
    while lines.len() > 0 && has_terminator(lines[lines.len() - 1].as_slice())
        invariant
            all == rows(old(lines)@),
            unended(rows(lines@)) == unended(all),
        ensures
            unended(rows(lines@)) == unended(all),
            rows(lines@).len() == 0 || !terminated(rows(lines@).last()),
        decreases lines@.len(),
    {
        let n: usize = lines.len();
        let ghost now = rows(lines@);
        assert(now.last() == lines@[n - 1]@);
        if content(lines[n - 1].as_slice()).len() > 0 {
            strip_terminator(&mut lines[n - 1]);
            assert(rows(lines@) == now.update(n - 1, logical(now.last())));
            return;
        }
        lines.pop();
        assert(rows(lines@) == now.drop_last());
    }
}

/// Makes lines end with a terminator or without one.
pub(crate) fn set_ending(lines: &mut Lines, with_newline: bool)
    ensures
        rows(final(lines)@) == ended(rows(old(lines)@), with_newline),
{
    let ghost all = rows(lines@);
    if !with_newline {
        unend(lines);
    } else if lines.len() > 0 {
        let n: usize = lines.len();
        ensure_terminator(&mut lines[n - 1]);
        assert(rows(lines@) == terminate_last(all));
    }
}

/// Sets `block` into `lines` in front of index `gap`, given how the file ends
/// and what a blank line in it is.
pub(crate) fn set_block(
    lines: &mut Lines,
    gap: usize,
    block: Lines,
    src_leading_blanks: usize,
    src_trailing_blanks: usize,
    end: Option<bool>,
    nl: &Vec<u8>,
) -> (range: (usize, usize))
    requires
        gap <= old(lines)@.len() || block@.len() == 0,
    ensures
        rows(final(lines)@) == set_in(
            rows(old(lines)@),
            gap as int,
            rows(block@),
            src_leading_blanks as nat,
            src_trailing_blanks as nat,
            end,
            nl@,
        ),
        ({
            let middle = landed(rows(block@), gap >= old(lines)@.len(), end);
            let first = gap + leading_fill(
                rows(old(lines)@),
                gap as int,
                src_leading_blanks as nat,
            );
            &&& middle.len() == 0 ==> range == (gap, gap)
            &&& middle.len() > 0 ==> range.0 == first + 1 && range.1 == first + middle.len()
                && range.1 <= final(lines)@.len()
        }),
{
    let mut block = block;
    let ghost before = rows(lines@);
    let ghost moved = rows(block@);
    let count: usize = lines.len();
    if block.len() > 0 {
        if gap < count {
            set_ending(&mut block, true);
        } else if let Some(with_newline) = end {
            set_ending(&mut block, with_newline);
        }
    }
    assert(rows(block@) == landed(moved, gap >= count, end));
    assert(rows(block@).len() == block@.len());
    if block.len() == 0 {
        return (gap, gap);
    }

    let mut add_leading: usize = 0;
    if gap > 0 {
        let present = blank_run_above(lines, gap);
        if src_leading_blanks > present {
            add_leading = src_leading_blanks - present;
        }
    }
    let mut add_trailing: usize = 0;
    if gap < count {
        let present = blank_run_below(lines, gap);
        if src_trailing_blanks > present {
            add_trailing = src_trailing_blanks - present;
        }
    }

    let mut tail = lines.split_off(gap);
    if gap > 0 {
        ensure_terminator(&mut lines[gap - 1]);
    }
    assert(rows(lines@) == terminate_last(before.take(gap as int)));

    let ghost head = rows(lines@);
    let ghost above = repeated(nl@, add_leading as nat);
    let ghost below = repeated(nl@, add_trailing as nat);
    let ghost middle = rows(block@);
    push_copies(lines, nl, add_leading);
    let start: usize = lines.len();
    lines.append(&mut block);
    let end: usize = lines.len();
    assert(rows(lines@) == head + above + middle);
    push_copies(lines, nl, add_trailing);
    assert(rows(tail@) == before.skip(gap as int));
    lines.append(&mut tail);
    assert(rows(lines@) == head + above + middle + below + before.skip(gap as int));
    (start + 1, end)
}

/// Sets `block` into `lines` in front of index `gap` and returns the lines it
/// now takes up, counted from one, added blanks left out. An empty block
/// changes nothing; nor does one that has no bytes to show at the end of a file
/// without a final newline.
pub fn insert_block(
    lines: &mut Lines,
    gap: usize,
    block: Lines,
    src_leading_blanks: usize,
    src_trailing_blanks: usize,
) -> (range: (usize, usize))
    requires
        gap <= old(lines)@.len() || block@.len() == 0,
    ensures
        rows(final(lines)@) == inserted(
            rows(old(lines)@),
            gap as int,
            rows(block@),
            src_leading_blanks as nat,
            src_trailing_blanks as nat,
        ),
        ({
            let before = rows(old(lines)@);
            let middle = landed(rows(block@), gap >= before.len(), ending(before));
            let first = gap + leading_fill(before, gap as int, src_leading_blanks as nat);
            &&& middle.len() == 0 ==> range == (gap, gap)
            &&& middle.len() > 0 ==> range.0 == first + 1 && range.1 == first + middle.len()
                && range.1 <= final(lines)@.len()
        }),
{
    let nl = newline(lines);
    let count: usize = lines.len();
    let end = if count == 0 {
        None
    } else {
        Some(has_terminator(lines[count - 1].as_slice()))
    };
    set_block(lines, gap, block, src_leading_blanks, src_trailing_blanks, end, &nl)
}

/// Appends `count` copies of `line`.
fn push_copies(lines: &mut Lines, line: &Vec<u8>, count: usize)
    ensures
        rows(final(lines)@) == rows(old(lines)@) + repeated(line@, count as nat),
{
    let mut i: usize = 0;
    while i < count
        invariant
            i <= count,
            rows(lines@) == rows(old(lines)@) + repeated(line@, i as nat),
        decreases count - i,
    {
        let ghost before = rows(lines@);
        let copy = line.clone();
        assert(copy@ == line@);
        lines.push(copy);
        assert(rows(lines@) == before.push(line@));
        assert(repeated(line@, (i + 1) as nat) == repeated(line@, i as nat).push(line@));
        i += 1;
    }
    assert(rows(old(lines)@) + repeated(line@, 0) == rows(old(lines)@));
}

/// Takes the lines `from` to `to` out of `lines`, counted from one. The file
/// keeps its trailing-newline state: where it ended without a newline, blank
/// lines that would be left without any bytes at the end go too.
pub fn remove_block(lines: &mut Lines, from: usize, to: usize)
    requires
        1 <= from <= to <= old(lines)@.len(),
    ensures
        rows(final(lines)@) == removed(rows(old(lines)@), from as int, to as int),
{
    let ghost before = rows(lines@);
    let count: usize = lines.len();
    let ends_terminated = has_terminator(lines[count - 1].as_slice());
    let mut tail = lines.split_off(to);
    lines.truncate(from - 1);
    lines.append(&mut tail);
    assert(rows(lines@) == without(before, from as int, to as int));
    if to == count {
        set_ending(lines, ends_terminated);
    }
}

/// Narrows the blank run at a seam that a removal doubled: of `lead` blanks
/// above and `trail` blanks below the block that was taken out, the wider run
/// stays. `seam` is the line, counted from one, that followed the block.
/// Returns how many lines went.
pub fn collapse_seam_blank(lines: &mut Lines, seam: usize, lead: usize, trail: usize) -> (gone:
    usize)
    ensures
        rows(final(lines)@) == collapsed(
            rows(old(lines)@),
            seam as int,
            lead as nat,
            trail as nat,
        ),
        gone == overlap(rows(old(lines)@), seam as int, lead as nat, trail as nat),
{
    let n: usize = if lead < trail { lead } else { trail };
    if n == 0 || seam < 1 || seam - 1 > lines.len() || n > lines.len() - (seam - 1) {
        return 0;
    }
    remove_block(lines, seam, seam - 1 + n);
    n
}

/// The index in front of which a block lands that is placed before or after
/// line `dest_line`.
pub fn gap_for(dest_line: usize, before: bool) -> (gap: usize)
    ensures
        gap == gap_of(dest_line as nat, before),
{
    if dest_line == 0 {
        0
    } else if before {
        dest_line - 1
    } else {
        dest_line
    }
}

} // verus!
