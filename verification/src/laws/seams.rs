//! Setting a block in and taking it out: what stays as it was.

use vstd::prelude::*;

use crate::laws::files::{file_lines, filled, one_line, unjoined};
use crate::lines::{
    blank, flatten, lemma_flatten_add, logical, terminated, with_terminator, CR, LF,
};
use crate::ops::{
    block_of, in_place, lemma_shifted_gap, moved, moved_start, narrowed_by, receiving, shifted_gap,
    staying, tidied,
};
use crate::splice::{
    ended, ending, inserted, landed, leading_fill, lemma_run_above_bound, lemma_run_below_bound,
    newline_of, overlap, removed, repeated, run_above, run_below, set_in, terminate_last,
    trailing_fill, unended, without,
};

verus! {

/// Every line is one line with its line feed.
pub open spec fn closed_lines(lines: Seq<Seq<u8>>) -> bool {
    forall|i: int|
        0 <= i < lines.len() ==> one_line(#[trigger] lines[i]) && terminated(lines[i])
}

/// Whatever follows lines that have their line feeds stays apart from them.
proof fn lemma_unjoined_add(a: Seq<Seq<u8>>, b: Seq<Seq<u8>>)
    requires
        closed_lines(a),
        unjoined(b),
    ensures
        unjoined(a + b),
{
    let all = a + b;
    assert forall|i: int| 0 <= i < all.len() implies one_line(#[trigger] all[i]) by {
        if i < a.len() {
            assert(all[i] == a[i]);
        } else {
            assert(all[i] == b[i - a.len()]);
        }
    }
    assert forall|i: int| 0 <= i < all.len() - 1 implies terminated(#[trigger] all[i]) by {
        if i < a.len() {
            assert(all[i] == a[i]);
        } else {
            assert(all[i] == b[i - a.len()]);
        }
    }
}

proof fn lemma_closed_add(a: Seq<Seq<u8>>, b: Seq<Seq<u8>>)
    requires
        closed_lines(a),
        closed_lines(b),
    ensures
        closed_lines(a + b),
{
    let all = a + b;
    assert forall|i: int| 0 <= i < all.len() implies one_line(#[trigger] all[i]) && terminated(
        all[i],
    ) by {
        if i < a.len() {
            assert(all[i] == a[i]);
        } else {
            assert(all[i] == b[i - a.len()]);
        }
    }
}

proof fn lemma_with_terminator(line: Seq<u8>)
    requires
        one_line(line),
    ensures
        one_line(with_terminator(line)),
        terminated(with_terminator(line)),
{
    if !terminated(line) {
        let ended = line.push(LF);
        assert forall|i: int| 0 <= i < ended.len() - 1 implies #[trigger] ended[i] != LF by {
            assert(ended[i] == line[i]);
        }
    }
}

proof fn lemma_logical(line: Seq<u8>)
    requires
        one_line(line),
    ensures
        one_line(logical(line)),
        !terminated(logical(line)),
{
    let text = logical(line);
    assert forall|i: int| 0 <= i < text.len() implies #[trigger] text[i] != LF by {
        assert(text[i] == line[i]);
    }
}

proof fn lemma_terminate_last(lines: Seq<Seq<u8>>)
    requires
        unjoined(lines),
    ensures
        closed_lines(terminate_last(lines)),
{
    if lines.len() > 0 {
        lemma_with_terminator(lines.last());
    }
}

/// What is left of lines that are to end without a terminator: they stay as
/// they were, but for the last, which may have lost its terminator, and for
/// lines without any content, which may be gone from the end.
pub proof fn lemma_unended(lines: Seq<Seq<u8>>)
    ensures
        ({
            let cut = unended(lines);
            let k = cut.len() - 1;
            &&& cut.len() <= lines.len()
            &&& forall|i: int| 0 <= i < k ==> #[trigger] cut[i] == lines[i]
            &&& k >= 0 ==> {
                ||| cut[k] == lines[k] && !terminated(lines[k])
                ||| cut[k] == logical(lines[k]) && cut[k].len() > 0
            }
            &&& forall|i: int| cut.len() <= i < lines.len() ==> logical(#[trigger] lines[i]).len()
                == 0
        }),
    decreases lines.len(),
{
    if lines.len() > 0 && terminated(lines.last()) && logical(lines.last()).len() == 0 {
        let rest = lines.drop_last();
        lemma_unended(rest);
        let cut = unended(lines);
        assert forall|i: int| cut.len() <= i < lines.len() implies logical(
            #[trigger] lines[i],
        ).len() == 0 by {
            if i < rest.len() {
                assert(rest[i] == lines[i]);
            }
        }
    }
}

/// Lines that were made to end with a terminator, or without one, do.
proof fn lemma_ended(lines: Seq<Seq<u8>>, with_newline: bool)
    requires
        unjoined(lines),
    ensures
        unjoined(ended(lines, with_newline)),
        filled(lines) ==> filled(ended(lines, with_newline)),
        ended(lines, with_newline).len() > 0 ==> terminated(ended(lines, with_newline).last())
            == with_newline,
{
    let now = ended(lines, with_newline);
    if with_newline {
        lemma_terminate_last(lines);
        lemma_closed_is_unjoined(now);
    } else {
        lemma_unended(lines);
        let k = now.len() - 1;
        if k >= 0 {
            lemma_logical(lines[k]);
        }
        assert forall|i: int| 0 <= i < now.len() implies one_line(#[trigger] now[i]) by {
            assert(one_line(lines[i]));
        }
        assert forall|i: int| 0 <= i < now.len() - 1 implies terminated(#[trigger] now[i]) by {
            assert(terminated(lines[i]));
        }
        if filled(lines) {
            assert forall|i: int| 0 <= i < now.len() implies (#[trigger] now[i]).len() > 0 by {
                assert(lines[i].len() > 0);
            }
        }
    }
}

proof fn lemma_closed_is_unjoined(lines: Seq<Seq<u8>>)
    requires
        closed_lines(lines),
    ensures
        unjoined(lines),
{
}

proof fn lemma_newlines(newline: Seq<u8>, count: nat)
    requires
        one_line(newline),
        terminated(newline),
    ensures
        closed_lines(repeated(newline, count)),
{
}

/// A newline by itself is a line.
proof fn lemma_newline(lines: Seq<Seq<u8>>)
    ensures
        one_line(newline_of(lines)),
        terminated(newline_of(lines)),
{
}

proof fn lemma_part_unjoined(lines: Seq<Seq<u8>>, at: int)
    requires
        unjoined(lines),
        0 <= at <= lines.len(),
    ensures
        unjoined(lines.take(at)),
        unjoined(lines.skip(at)),
        at < lines.len() ==> closed_lines(lines.take(at)),
{
    let tail = lines.skip(at);
    assert forall|i: int| 0 <= i < tail.len() implies one_line(#[trigger] tail[i]) by {
        assert(tail[i] == lines[i + at]);
    }
    assert forall|i: int| 0 <= i < tail.len() - 1 implies terminated(#[trigger] tail[i]) by {
        assert(tail[i] == lines[i + at]);
    }
    let head = lines.take(at);
    assert forall|i: int| 0 <= i < head.len() implies one_line(#[trigger] head[i]) by {
        assert(head[i] == lines[i]);
    }
    assert forall|i: int| 0 <= i < head.len() - 1 implies terminated(#[trigger] head[i]) by {
        assert(head[i] == lines[i]);
    }
    if at < lines.len() {
        assert forall|i: int| 0 <= i < head.len() implies one_line(#[trigger] head[i])
            && terminated(head[i]) by {
            assert(head[i] == lines[i]);
        }
    }
}

proof fn lemma_filled_add(a: Seq<Seq<u8>>, b: Seq<Seq<u8>>)
    requires
        filled(a),
        filled(b),
    ensures
        filled(a + b),
{
    let all = a + b;
    assert forall|i: int| 0 <= i < all.len() implies (#[trigger] all[i]).len() > 0 by {
        if i < a.len() {
            assert(all[i] == a[i]);
        } else {
            assert(all[i] == b[i - a.len()]);
        }
    }
}

proof fn lemma_closed_is_filled(lines: Seq<Seq<u8>>)
    requires
        closed_lines(lines),
    ensures
        filled(lines),
{
    assert forall|i: int| 0 <= i < lines.len() implies (#[trigger] lines[i]).len() > 0 by {
        assert(terminated(lines[i]));
    }
}

/// A block set into a file joins no lines and leaves none without bytes.
proof fn lemma_set_in(
    lines: Seq<Seq<u8>>,
    gap: int,
    block: Seq<Seq<u8>>,
    above: nat,
    below: nat,
    end: Option<bool>,
    newline: Seq<u8>,
)
    requires
        unjoined(lines),
        unjoined(block),
        0 <= gap <= lines.len(),
        one_line(newline),
        terminated(newline),
    ensures
        ({
            let after = set_in(lines, gap, block, above, below, end, newline);
            let middle = landed(block, gap >= lines.len(), end);
            &&& unjoined(after)
            &&& filled(lines) && filled(block) ==> filled(after)
            &&& gap < lines.len() ==> after.len() > 0 && terminated(after.last()) == terminated(
                lines.last(),
            )
            &&& gap == lines.len() && middle.len() > 0 && end is Some ==> after.len() > 0
                && terminated(after.last()) == end->0
        }),
{
    let after = set_in(lines, gap, block, above, below, end, newline);
    let middle = landed(block, gap >= lines.len(), end);
    if middle.len() > 0 {
        let head = terminate_last(lines.take(gap));
        let fill = repeated(newline, leading_fill(lines, gap, above));
        let lower = repeated(newline, trailing_fill(lines, gap, below));
        let tail = lines.skip(gap);
        lemma_part_unjoined(lines, gap);
        lemma_terminate_last(lines.take(gap));
        lemma_newlines(newline, leading_fill(lines, gap, above));
        lemma_newlines(newline, trailing_fill(lines, gap, below));
        lemma_closed_add(head, fill);
        lemma_closed_is_filled(head + fill);
        lemma_ended(block, true);
        lemma_ended(block, false);
        if gap < lines.len() {
            lemma_terminate_last(block);
            lemma_closed_add(head + fill, middle);
            lemma_closed_add(head + fill + middle, lower);
            lemma_closed_is_filled(head + fill + middle + lower);
            lemma_unjoined_add(head + fill + middle + lower, tail);
            assert(after.last() == lines.last());
            if filled(lines) {
                assert forall|i: int| 0 <= i < tail.len() implies (
                #[trigger] tail[i]).len() > 0 by {
                    assert(tail[i] == lines[i + gap]);
                }
                lemma_filled_add(head + fill + middle + lower, tail);
            }
        } else {
            lemma_unjoined_add(head + fill, middle);
            assert(lower.len() == 0 && tail.len() == 0);
            assert(after == head + fill + middle);
            if filled(lines) && filled(block) {
                lemma_filled_add(head + fill, middle);
            }
        }
    } else if gap < lines.len() {
        assert(block.len() == 0);
    }
}

/// A block set into a file joins no lines. Lines of a file stay lines of a
/// file.
pub proof fn insertion_joins_nothing(
    lines: Seq<Seq<u8>>,
    gap: int,
    block: Seq<Seq<u8>>,
    above: nat,
    below: nat,
)
    requires
        unjoined(lines),
        unjoined(block),
        0 <= gap <= lines.len(),
    ensures
        unjoined(inserted(lines, gap, block, above, below)),
        filled(lines) && filled(block) ==> file_lines(inserted(lines, gap, block, above, below)),
{
    lemma_newline(lines);
    lemma_set_in(lines, gap, block, above, below, ending(lines), newline_of(lines));
}

/// Any two stretches of a file are not joined to each other either.
proof fn lemma_without(lines: Seq<Seq<u8>>, from: int, to: int)
    requires
        unjoined(lines),
        1 <= from <= lines.len(),
        from - 1 <= to <= lines.len(),
    ensures
        unjoined(without(lines, from, to)),
        filled(lines) ==> filled(without(lines, from, to)),
{
    let rest = without(lines, from, to);
    lemma_part_unjoined(lines, from - 1);
    lemma_part_unjoined(lines, to);
    lemma_unjoined_add(lines.take(from - 1), lines.skip(to));
    if filled(lines) {
        assert forall|i: int| 0 <= i < rest.len() implies (#[trigger] rest[i]).len() > 0 by {
            if i < from - 1 {
                assert(rest[i] == lines[i]);
            } else {
                assert(rest[i] == lines[i - (from - 1) + to]);
            }
        }
    }
}

/// Taking lines out of a file joins none of the others. Lines of a file stay
/// lines of a file.
pub proof fn removal_joins_nothing(lines: Seq<Seq<u8>>, from: int, to: int)
    requires
        unjoined(lines),
        1 <= from <= to <= lines.len(),
    ensures
        unjoined(removed(lines, from, to)),
        filled(lines) ==> file_lines(removed(lines, from, to)),
{
    lemma_without(lines, from, to);
    lemma_ended(without(lines, from, to), terminated(lines.last()));
}

/// A source that gave up a block consists of the lines that stay. Where these
/// no longer hold the file's last line, they end as the file did.
pub proof fn lemma_tidied(lines: Seq<Seq<u8>>, from: int, to: int)
    requires
        1 <= from <= to <= lines.len(),
    ensures
        ({
            let n = narrowed_by(lines, from, to);
            &&& 0 <= n <= from - 1
            &&& to + n <= lines.len()
            &&& to + n < lines.len() ==> tidied(lines, from, to) == staying(lines, from, to)
            &&& to + n == lines.len() ==> tidied(lines, from, to) == ended(
                staying(lines, from, to),
                terminated(lines.last()),
            )
        }),
{
    let n = narrowed_by(lines, from, to);
    lemma_run_above_bound(lines, from - 1);
    lemma_run_below_bound(lines, to);
    if n > 0 {
        let rest = without(lines, from, to);
        assert(removed(lines, from, to) == rest);
        assert(rest.last() == lines.last());
        assert(overlap(rest, from, run_above(lines, from - 1), run_below(lines, to)) == n);
        assert(without(rest, from, from - 1 + n) == staying(lines, from, to));
    } else {
        assert(without(lines, from, to) == staying(lines, from, to));
    }
}

/// A source that gave up a block, and tidied its seam, has no joined lines.
/// Lines of a file stay lines of a file.
pub proof fn tidying_joins_nothing(lines: Seq<Seq<u8>>, from: int, to: int)
    requires
        unjoined(lines),
        1 <= from <= to <= lines.len(),
    ensures
        unjoined(tidied(lines, from, to)),
        filled(lines) ==> file_lines(tidied(lines, from, to)),
{
    lemma_tidied(lines, from, to);
    lemma_without(lines, from, to + narrowed_by(lines, from, to));
    lemma_ended(staying(lines, from, to), terminated(lines.last()));
}

/// A block cut out of a file is not joined.
pub proof fn lemma_block_unjoined(lines: Seq<Seq<u8>>, from: int, to: int)
    requires
        unjoined(lines),
        1 <= from <= to <= lines.len(),
    ensures
        unjoined(block_of(lines, from, to)),
        filled(lines) ==> filled(block_of(lines, from, to)),
{
    let block = block_of(lines, from, to);
    assert forall|i: int| 0 <= i < block.len() implies one_line(#[trigger] block[i]) && (filled(
        lines,
    ) ==> block[i].len() > 0) by {
        assert(block[i] == lines[from - 1 + i]);
    }
    assert forall|i: int| 0 <= i < block.len() - 1 implies terminated(#[trigger] block[i]) by {
        assert(block[i] == lines[from - 1 + i]);
    }
}

/// What a moved block is set into: lines that are not joined, and what will be
/// below the block ends as the file does.
proof fn lemma_receiving(lines: Seq<Seq<u8>>, from: int, to: int, gap: int)
    requires
        unjoined(lines),
        1 <= from <= to <= lines.len(),
        0 <= gap <= lines.len(),
        gap < from || gap >= to,
    ensures
        ({
            let target = receiving(lines, from, to, gap);
            let at = shifted_gap(lines, from, to, gap);
            &&& 0 <= at <= target.len()
            &&& unjoined(target)
            &&& filled(lines) ==> filled(target)
            &&& at < target.len() ==> terminated(target.last()) == terminated(lines.last())
        }),
{
    let rest = staying(lines, from, to);
    let at = shifted_gap(lines, from, to, gap);
    let with_newline = terminated(lines.last());
    let head = rest.take(at);
    let tail = ended(rest.skip(at), with_newline);
    lemma_shifted_gap(lines, from, to, gap);
    lemma_without(lines, from, to + narrowed_by(lines, from, to));
    lemma_part_unjoined(rest, at);
    lemma_ended(rest.skip(at), with_newline);
    assert(filled(lines) ==> filled(head) && filled(rest.skip(at))) by {
        assert forall|i: int| filled(lines) && 0 <= i < head.len() implies (
        #[trigger] head[i]).len() > 0 by {
            assert(head[i] == rest[i]);
        }
        let low = rest.skip(at);
        assert forall|i: int| filled(lines) && 0 <= i < low.len() implies (
        #[trigger] low[i]).len() > 0 by {
            assert(low[i] == rest[i + at]);
        }
    }
    if at < rest.len() {
        lemma_unjoined_add(head, tail);
    } else {
        assert(tail.len() == 0) by {
            assert(rest.skip(at).len() == 0);
            lemma_unended(rest.skip(at));
        }
        assert(head + tail == head);
    }
    if filled(lines) {
        lemma_filled_add(head, tail);
    }
}

/// A block moved within its file joins no lines. Lines of a file stay lines of
/// a file.
pub proof fn moving_joins_nothing(lines: Seq<Seq<u8>>, from: int, to: int, gap: int)
    requires
        unjoined(lines),
        1 <= from <= to <= lines.len(),
        0 <= gap <= lines.len(),
        gap < from || gap >= to,
    ensures
        unjoined(moved(lines, from, to, gap)),
        filled(lines) ==> file_lines(moved(lines, from, to, gap)),
{
    lemma_receiving(lines, from, to, gap);
    lemma_block_unjoined(lines, from, to);
    lemma_newline(staying(lines, from, to));
    lemma_set_in(
        receiving(lines, from, to, gap),
        shifted_gap(lines, from, to, gap),
        block_of(lines, from, to),
        run_above(lines, from - 1),
        run_below(lines, to),
        Some(terminated(lines.last())),
        newline_of(staying(lines, from, to)),
    );
}

/// `now` is the line `then`, as it was or with a line feed added or its
/// terminator gone.
pub open spec fn same_but_terminator(now: Seq<u8>, then: Seq<u8>) -> bool {
    now == then || now == then.push(LF) || now == logical(then)
}

/// `now` are the lines `then`, but for the terminator of the last, and for
/// lines without any content that are gone from the end.
pub open spec fn same_but_end(now: Seq<Seq<u8>>, then: Seq<Seq<u8>>) -> bool {
    &&& now.len() <= then.len()
    &&& forall|i: int| 0 <= i < now.len() - 1 ==> #[trigger] now[i] == then[i]
    &&& now.len() > 0 ==> same_but_terminator(now.last(), then[now.len() - 1])
    &&& forall|i: int| now.len() <= i < then.len() ==> logical(#[trigger] then[i]).len() == 0
}

proof fn lemma_ended_same(lines: Seq<Seq<u8>>, with_newline: bool)
    ensures
        same_but_end(ended(lines, with_newline), lines),
        with_newline ==> ended(lines, with_newline).len() == lines.len(),
{
    lemma_unended(lines);
}

/// A block set into a file stands there line by line as it was, but for its
/// end: the terminator of its last line, and lines without any content where
/// it ends a file without a final newline. Every line of the file above and
/// below it keeps its bytes, but for a line feed that the line right above it
/// may gain. Whatever else is new is a bare newline. Where nothing of the block
/// is left, the file stays as it was.
pub proof fn insertion_keeps_bytes(
    lines: Seq<Seq<u8>>,
    gap: int,
    block: Seq<Seq<u8>>,
    above: nat,
    below: nat,
)
    requires
        0 <= gap <= lines.len(),
    ensures
        ({
            let after = inserted(lines, gap, block, above, below);
            let middle = landed(block, gap == lines.len(), ending(lines));
            let lead = leading_fill(lines, gap, above);
            let trail = trailing_fill(lines, gap, below);
            let first = gap + lead;
            let end = first + middle.len();
            &&& same_but_end(middle, block)
            &&& gap < lines.len() || lines.len() == 0 || terminated(lines.last()) ==> middle.len()
                == block.len()
            &&& middle.len() == 0 ==> after == lines
            &&& middle.len() > 0 ==> {
                &&& after.len() == lines.len() + lead + middle.len() + trail
                &&& forall|i: int| 0 <= i < gap - 1 ==> #[trigger] after[i] == lines[i]
                &&& gap > 0 ==> after[gap - 1] == with_terminator(lines[gap - 1])
                &&& forall|i: int| gap <= i < first ==> #[trigger] after[i] == newline_of(lines)
                &&& forall|i: int| first <= i < end ==> #[trigger] after[i] == middle[i - first]
                &&& forall|i: int|
                    end <= i < end + trail ==> #[trigger] after[i] == newline_of(lines)
                &&& forall|i: int|
                    end + trail <= i < after.len() ==> #[trigger] after[i] == lines[i - lead
                        - middle.len() - trail]
            }
        }),
{
    lemma_ended_same(block, true);
    lemma_ended_same(block, false);
}

/// Taking out the lines that a block without blank lines around it landed on
/// gives the file back, byte for byte. Some line of the block must land. Left
/// out is a block set in behind a last line without a terminator that ends with
/// a carriage return, or holds nothing.
pub proof fn taking_out_undoes_setting_in(lines: Seq<Seq<u8>>, gap: int, block: Seq<Seq<u8>>)
    requires
        unjoined(lines),
        unjoined(block),
        0 <= gap <= lines.len(),
        landed(block, gap == lines.len(), ending(lines)).len() > 0,
        gap == lines.len() && lines.len() > 0 && !terminated(lines.last()) ==> lines.last().len()
            > 0 && lines.last().last() != CR,
    ensures
        ({
            let size = landed(block, gap == lines.len(), ending(lines)).len();
            removed(inserted(lines, gap, block, 0, 0), gap + 1, gap + size) == lines
        }),
{
    let middle = landed(block, gap == lines.len(), ending(lines));
    let after = inserted(lines, gap, block, 0, 0);
    let head = terminate_last(lines.take(gap));
    let rest = without(after, gap + 1, gap + middle.len() as int);
    lemma_part_unjoined(lines, gap);
    assert(after == head + middle + lines.skip(gap));
    assert(rest == head + lines.skip(gap));
    if gap < lines.len() {
        assert(rest == lines);
    } else if lines.len() > 0 {
        insertion_keeps_ending(lines, gap, block, 0, 0);
        assert(lines.take(gap) == lines);
        assert(rest == terminate_last(lines));
        if terminated(lines.last()) {
            assert(terminate_last(terminate_last(lines)) == lines);
        } else {
            assert(logical(with_terminator(lines.last())) == lines.last());
            assert(unended(rest) == lines);
        }
    } else {
        assert(rest.len() == 0);
        assert(ended(rest, terminated(after.last())) == rest);
    }
}

/// A block that had no blank lines around it brings none along.
pub proof fn tight_blocks_bring_no_blanks(lines: Seq<Seq<u8>>, gap: int, block: Seq<Seq<u8>>)
    requires
        0 <= gap <= lines.len(),
    ensures
        inserted(lines, gap, block, 0, 0).len() == lines.len() + landed(
            block,
            gap == lines.len(),
            ending(lines),
        ).len(),
{
    insertion_keeps_bytes(lines, gap, block, 0, 0);
}

/// Lines taken out of a file leave every other line as it was, but for the end
/// of the file where that went: the line that is now the last takes over the
/// terminator of the old, and with it lines that would be left without bytes
/// go.
pub proof fn removal_keeps_bytes(lines: Seq<Seq<u8>>, from: int, to: int)
    requires
        1 <= from <= to <= lines.len(),
    ensures
        to < lines.len() ==> removed(lines, from, to) == without(lines, from, to),
        same_but_end(removed(lines, from, to), without(lines, from, to)),
        terminated(lines.last()) ==> removed(lines, from, to).len() == lines.len() - (to - from
            + 1),
{
    lemma_ended_same(without(lines, from, to), terminated(lines.last()));
}

/// The index in its file of line `i` of those that stay when the block `from`
/// to `to` goes.
pub open spec fn stayed_from(lines: Seq<Seq<u8>>, from: int, to: int, i: int) -> int {
    if i < from - 1 {
        i
    } else {
        i + (to - from + 1) + narrowed_by(lines, from, to)
    }
}

proof fn lemma_staying(lines: Seq<Seq<u8>>, from: int, to: int)
    requires
        1 <= from <= to <= lines.len(),
    ensures
        ({
            let rest = staying(lines, from, to);
            let n = narrowed_by(lines, from, to);
            &&& 0 <= n <= from - 1
            &&& rest.len() == lines.len() - (to - from + 1) - n
            &&& forall|i: int|
                0 <= i < rest.len() ==> 0 <= #[trigger] stayed_from(lines, from, to, i)
                    < lines.len() && rest[i] == lines[stayed_from(lines, from, to, i)]
            &&& forall|i: int| to <= i < to + n ==> blank(#[trigger] lines[i])
        }),
{
    let n = narrowed_by(lines, from, to);
    lemma_run_above_bound(lines, from - 1);
    lemma_run_below_bound(lines, to);
    assert forall|i: int| to <= i < to + n implies blank(#[trigger] lines[i]) by {
        lemma_run_is_blank(lines, to, i);
    }
}

/// The lines that a run below an index counts are blank.
pub proof fn lemma_run_is_blank(lines: Seq<Seq<u8>>, gap: int, i: int)
    requires
        gap <= i < gap + run_below(lines, gap),
    ensures
        i < lines.len(),
        blank(lines[i]),
    decreases i - gap,
{
    if i > gap {
        lemma_run_is_blank(lines, gap + 1, i);
    }
}

/// The line `then` of a file stands at index `at` of the file `after`, byte for
/// byte, but for the terminator of a line that is the last of its file, then or
/// now. Beyond the end of `after` it is gone: it held nothing.
pub open spec fn kept_at(after: Seq<Seq<u8>>, at: int, then: Seq<u8>, was_last: bool) -> bool {
    if at >= after.len() {
        logical(then).len() == 0
    } else if was_last || at == after.len() - 1 {
        same_but_terminator(after[at], then)
    } else {
        after[at] == then
    }
}

/// The file `after` is the file `lines` without the block `from` to `to`: every
/// other line is there, byte for byte and in order, but for the blank lines that
/// the seam gave up right below the block. Only the line that is now the last
/// may have lost its terminator, and lines without any content may have gone
/// from the end; in a file that ends with a newline neither happens.
pub open spec fn rest_kept(
    lines: Seq<Seq<u8>>,
    from: int,
    to: int,
    after: Seq<Seq<u8>>,
) -> bool {
    let n = narrowed_by(lines, from, to);
    let count = lines.len() - (to - from + 1) - n;
    &&& after.len() <= count
    &&& forall|i: int| to <= i < to + n ==> blank(#[trigger] lines[i])
    &&& forall|i: int|
        0 <= i < count ==> kept_at(
            after,
            i,
            lines[#[trigger] stayed_from(lines, from, to, i)],
            false,
        )
    &&& terminated(lines.last()) ==> after.len() == count && forall|i: int|
        0 <= i < count ==> after[i] == lines[#[trigger] stayed_from(lines, from, to, i)]
}

/// A file that gives up a block, to another file or for good, keeps its other
/// lines byte for byte.
pub proof fn giving_up_keeps_bytes(lines: Seq<Seq<u8>>, from: int, to: int)
    requires
        unjoined(lines),
        1 <= from <= to <= lines.len(),
    ensures
        rest_kept(lines, from, to, tidied(lines, from, to)),
{
    let rest = staying(lines, from, to);
    let after = tidied(lines, from, to);
    lemma_tidied(lines, from, to);
    lemma_staying(lines, from, to);
    lemma_without(lines, from, to + narrowed_by(lines, from, to));
    lemma_ended_same(rest, terminated(lines.last()));
    assert forall|i: int| 0 <= i < rest.len() implies kept_at(
        after,
        i,
        lines[#[trigger] stayed_from(lines, from, to, i)],
        false,
    ) by {
        assert(rest[i] == lines[stayed_from(lines, from, to, i)]);
    }
    if terminated(lines.last()) {
        assert forall|i: int| 0 <= i < rest.len() implies after[i]
            == lines[#[trigger] stayed_from(lines, from, to, i)] by {
            assert(rest[i] == lines[stayed_from(lines, from, to, i)]);
            assert(terminated(lines[stayed_from(lines, from, to, i)]));
        }
    }
}

/// A move to the place where the block already stands leaves the file as it is.
pub proof fn moving_nowhere_changes_nothing(lines: Seq<Seq<u8>>, from: int, to: int, gap: int)
    requires
        1 <= from <= to <= lines.len(),
        gap == from - 1 || gap == to,
    ensures
        moved(lines, from, to, gap) == lines,
{
}

/// Where in the file line `i` of those that stay stands once the block `from`
/// to `to` moved to index `gap`.
pub open spec fn stays_at(lines: Seq<Seq<u8>>, from: int, to: int, gap: int, i: int) -> int {
    let target = receiving(lines, from, to, gap);
    let at = shifted_gap(lines, from, to, gap);
    if i < at {
        i
    } else {
        i + leading_fill(target, at, run_above(lines, from - 1)) + (to - from + 1) + trailing_fill(
            target,
            at,
            run_below(lines, to),
        )
    }
}

/// The file `after` is the file `lines` with its block `from` to `to` at index
/// `gap`. Every line outside the block is there, byte for byte and in order, but
/// for the terminator of the file's last line, then and now, and for the blank
/// lines that the seam gave up right below the block. Lines without any content
/// may have gone from the end, and in a file that ends with a newline nothing of
/// this happens. The block keeps its bytes, but for the terminator of its last
/// line, and whatever else is new is a bare newline.
pub open spec fn move_kept(
    lines: Seq<Seq<u8>>,
    from: int,
    to: int,
    gap: int,
    after: Seq<Seq<u8>>,
) -> bool {
    let n = narrowed_by(lines, from, to);
    let size = to - from + 1;
    let count = lines.len() - size - n;
    let at = shifted_gap(lines, from, to, gap);
    let newline = newline_of(staying(lines, from, to));
    let first = moved_start(lines, from, to, gap) - 1;
    let low = stays_at(lines, from, to, gap, at);
    &&& 0 <= at <= first && first + size <= low
    &&& first + size <= after.len() <= low + (count - at)
    &&& forall|i: int| to <= i < to + n ==> blank(#[trigger] lines[i])
    &&& forall|i: int|
        0 <= i < count ==> kept_at(
            after,
            stays_at(lines, from, to, gap, i),
            lines[#[trigger] stayed_from(lines, from, to, i)],
            stayed_from(lines, from, to, i) == lines.len() - 1,
        )
    &&& terminated(lines.last()) ==> after.len() == low + (count - at) && forall|i: int|
        0 <= i < count ==> after[stays_at(lines, from, to, gap, i)]
            == lines[#[trigger] stayed_from(lines, from, to, i)]
    &&& forall|i: int| at <= i < first ==> #[trigger] after[i] == newline
    &&& forall|i: int|
        first <= i < first + size - 1 ==> #[trigger] after[i] == lines[i - first + from - 1]
    &&& same_but_terminator(after[first + size - 1], lines[to - 1])
    &&& forall|i: int| first + size <= i < low ==> #[trigger] after[i] == newline
}

/// What a file consists of after a move: the lines that stay above the block,
/// the block, and the lines that stay below it, with newlines between.
proof fn lemma_moved(lines: Seq<Seq<u8>>, from: int, to: int, gap: int)
    requires
        1 <= from <= to <= lines.len(),
        logical(lines[to - 1]).len() > 0,
        0 <= gap <= lines.len(),
        gap < from || gap >= to,
        !in_place(from, to, gap),
    ensures
        ({
            let after = moved(lines, from, to, gap);
            let rest = staying(lines, from, to);
            let at = shifted_gap(lines, from, to, gap);
            let newline = newline_of(rest);
            let first = moved_start(lines, from, to, gap) - 1;
            let size = to - from + 1;
            let low = stays_at(lines, from, to, gap, at);
            let tail = ended(rest.skip(at), terminated(lines.last()));
            &&& 0 <= at <= first && first + size <= low
            &&& at <= rest.len()
            &&& after.len() == low + tail.len()
            &&& forall|i: int| 0 <= i < at - 1 ==> #[trigger] after[i] == rest[i]
            &&& at > 0 ==> after[at - 1] == with_terminator(rest[at - 1])
            &&& forall|i: int| at <= i < first ==> #[trigger] after[i] == newline
            &&& forall|i: int|
                first <= i < first + size - 1 ==> #[trigger] after[i] == lines[i - first + from - 1]
            &&& same_but_terminator(after[first + size - 1], lines[to - 1])
            &&& forall|i: int| first + size <= i < low ==> #[trigger] after[i] == newline
            &&& forall|i: int| low <= i < after.len() ==> #[trigger] after[i] == tail[i - low]
        }),
{
    let after = moved(lines, from, to, gap);
    let target = receiving(lines, from, to, gap);
    let at = shifted_gap(lines, from, to, gap);
    let rest = staying(lines, from, to);
    let block = block_of(lines, from, to);
    let with_newline = terminated(lines.last());
    let tail = ended(rest.skip(at), with_newline);
    let middle = landed(block, at >= target.len(), Some(with_newline));
    lemma_shifted_gap(lines, from, to, gap);
    lemma_ended_same(block, with_newline);
    assert(block.last() == lines[to - 1]);
    assert(middle.len() == block.len());
    assert(target.skip(at) == tail);
    assert(target.take(at) == rest.take(at));
    let newline = newline_of(rest);
    let lead = leading_fill(target, at, run_above(lines, from - 1));
    let trail = trailing_fill(target, at, run_below(lines, to));
    let head = terminate_last(rest.take(at));
    assert(after == head + repeated(newline, lead) + middle + repeated(newline, trail) + tail);
}

/// A block moved within its file leaves the other lines byte for byte as they
/// were. The last line of the block must hold something, as a line that a guard
/// was found on does.
pub proof fn moving_keeps_bytes(lines: Seq<Seq<u8>>, from: int, to: int, gap: int)
    requires
        unjoined(lines),
        1 <= from <= to <= lines.len(),
        logical(lines[to - 1]).len() > 0,
        0 <= gap <= lines.len(),
        gap < from || gap >= to,
        !in_place(from, to, gap),
    ensures
        move_kept(lines, from, to, gap, moved(lines, from, to, gap)),
{
    let after = moved(lines, from, to, gap);
    let at = shifted_gap(lines, from, to, gap);
    let rest = staying(lines, from, to);
    let low = stays_at(lines, from, to, gap, at);
    let with_newline = terminated(lines.last());
    let tail = ended(rest.skip(at), with_newline);
    lemma_moved(lines, from, to, gap);
    lemma_staying(lines, from, to);
    lemma_ended_same(rest.skip(at), with_newline);
    assert forall|i: int| 0 <= i < rest.len() implies kept_at(
        after,
        stays_at(lines, from, to, gap, i),
        lines[#[trigger] stayed_from(lines, from, to, i)],
        stayed_from(lines, from, to, i) == lines.len() - 1,
    ) && (with_newline ==> after[stays_at(lines, from, to, gap, i)] == lines[stayed_from(
        lines,
        from,
        to,
        i,
    )]) by {
        let then = lines[stayed_from(lines, from, to, i)];
        assert(rest[i] == then);
        if i < at {
            assert(after[i] == then || after[i] == with_terminator(then));
        } else {
            let k = i - at;
            assert(stays_at(lines, from, to, gap, i) == low + k);
            assert(rest.skip(at)[k] == then);
            if k < tail.len() {
                assert(after[low + k] == tail[low + k - low]);
            }
        }
    }
}

/// A file keeps its trailing-newline state when a block is set in.
pub proof fn insertion_keeps_ending(
    lines: Seq<Seq<u8>>,
    gap: int,
    block: Seq<Seq<u8>>,
    above: nat,
    below: nat,
)
    requires
        unjoined(lines),
        unjoined(block),
        0 <= gap <= lines.len(),
        lines.len() > 0,
    ensures
        inserted(lines, gap, block, above, below).len() > 0,
        terminated(inserted(lines, gap, block, above, below).last()) == terminated(lines.last()),
{
    lemma_newline(lines);
    lemma_set_in(lines, gap, block, above, below, ending(lines), newline_of(lines));
}

/// A file keeps its trailing-newline state when it gives up a block and its
/// seam is tidied, as long as any lines are left. Only a file without a final
/// newline can be left without lines though some were outside the block.
pub proof fn tidying_keeps_ending(lines: Seq<Seq<u8>>, from: int, to: int)
    requires
        unjoined(lines),
        1 <= from <= to <= lines.len(),
    ensures
        tidied(lines, from, to).len() > 0 ==> terminated(tidied(lines, from, to).last())
            == terminated(lines.last()),
        to - from + 1 < lines.len() && terminated(lines.last()) ==> tidied(lines, from, to).len()
            > 0,
{
    let rest = staying(lines, from, to);
    lemma_tidied(lines, from, to);
    lemma_without(lines, from, to + narrowed_by(lines, from, to));
    lemma_ended(rest, terminated(lines.last()));
    if to + narrowed_by(lines, from, to) < lines.len() {
        assert(rest.last() == lines.last());
    }
}

/// A file keeps its trailing-newline state when a block moves within it.
pub proof fn moving_keeps_ending(lines: Seq<Seq<u8>>, from: int, to: int, gap: int)
    requires
        unjoined(lines),
        1 <= from <= to <= lines.len(),
        logical(lines[to - 1]).len() > 0,
        0 <= gap <= lines.len(),
        gap < from || gap >= to,
    ensures
        moved(lines, from, to, gap).len() > 0,
        terminated(moved(lines, from, to, gap).last()) == terminated(lines.last()),
{
    let block = block_of(lines, from, to);
    lemma_receiving(lines, from, to, gap);
    lemma_block_unjoined(lines, from, to);
    lemma_newline(staying(lines, from, to));
    assert(block.last() == lines[to - 1]);
    lemma_set_in(
        receiving(lines, from, to, gap),
        shifted_gap(lines, from, to, gap),
        block,
        run_above(lines, from - 1),
        run_below(lines, to),
        Some(terminated(lines.last())),
        newline_of(staying(lines, from, to)),
    );
}

/// The bytes end with a line feed.
pub open spec fn ends_with_newline(bytes: Seq<u8>) -> bool {
    bytes.len() > 0 && bytes.last() == LF
}

/// What a file holds ends with a line feed where its last line does.
pub proof fn ending_is_that_of_last_line(lines: Seq<Seq<u8>>)
    requires
        filled(lines),
    ensures
        ends_with_newline(flatten(lines)) == (lines.len() > 0 && terminated(lines.last())),
{
    if lines.len() > 0 {
        let head = lines.drop_last();
        let last = seq![lines.last()];
        assert(lines == head + last);
        lemma_flatten_add(head, last);
        assert(last.skip(1) == Seq::<Seq<u8>>::empty());
        reveal_with_fuel(flatten, 2);
        assert(flatten(last) == lines.last());
        assert(lines[lines.len() - 1].len() > 0);
    }
}

} // verus!
