//! Nothing that is not blank is lost, made up, changed or put out of order.

use vstd::prelude::*;

use crate::laws::files::{one_line, unjoined};
use crate::laws::seams::{lemma_block_unjoined, lemma_run_is_blank, lemma_tidied};
use crate::lines::{ascii_space, blank, logical, terminated, with_terminator, CR, LF};
use crate::ops::{
    block_of, in_place, lemma_shifted_gap, moved, narrowed_by, receiving, shifted_gap, staying,
    tidied, with_block,
};
use crate::splice::{
    ended, ending, inserted, landed, leading_fill, newline_of, repeated, run_above, run_below,
    set_in, terminate_last, trailing_fill, unended,
};

verus! {

/// The line without the line feeds and carriage returns at its end.
pub open spec fn stem(line: Seq<u8>) -> Seq<u8>
    decreases line.len(),
{
    if line.len() > 0 && (line.last() == LF || line.last() == CR) {
        stem(line.drop_last())
    } else {
        line
    }
}

/// What a line says: nothing where it is blank, else its bytes without the
/// line ending.
pub open spec fn mark(line: Seq<u8>) -> Option<Seq<u8>> {
    if blank(line) {
        None
    } else {
        Some(stem(line))
    }
}

/// What all lines say, in order.
pub open spec fn wording(lines: Seq<Seq<u8>>) -> Seq<Seq<u8>>
    decreases lines.len(),
{
    if lines.len() == 0 {
        seq![]
    } else {
        match mark(lines.last()) {
            None => wording(lines.drop_last()),
            Some(text) => wording(lines.drop_last()).push(text),
        }
    }
}

/// Line by line the two say the same.
pub open spec fn alike(a: Seq<Seq<u8>>, b: Seq<Seq<u8>>) -> bool {
    a.len() == b.len() && forall|i: int| 0 <= i < a.len() ==> mark(#[trigger] a[i]) == mark(b[i])
}

proof fn lemma_alike(a: Seq<Seq<u8>>, b: Seq<Seq<u8>>)
    requires
        alike(a, b),
    ensures
        wording(a) == wording(b),
    decreases a.len(),
{
    if a.len() > 0 {
        assert(mark(a[a.len() - 1]) == mark(b[b.len() - 1]));
        let x = a.drop_last();
        let y = b.drop_last();
        assert forall|i: int| 0 <= i < x.len() implies mark(#[trigger] x[i]) == mark(y[i]) by {
            assert(x[i] == a[i] && y[i] == b[i]);
        }
        lemma_alike(x, y);
    }
}

proof fn lemma_wording_add(a: Seq<Seq<u8>>, b: Seq<Seq<u8>>)
    ensures
        wording(a + b) == wording(a) + wording(b),
    decreases b.len(),
{
    if b.len() == 0 {
        assert(a + b == a);
        assert(wording(a) + wording(b) == wording(a));
    } else {
        assert((a + b).last() == b.last());
        assert((a + b).drop_last() == a + b.drop_last());
        lemma_wording_add(a, b.drop_last());
        assert(wording(a + b) == wording(a) + wording(b));
    }
}

proof fn lemma_wording_split(lines: Seq<Seq<u8>>, at: int)
    requires
        0 <= at <= lines.len(),
    ensures
        wording(lines) == wording(lines.take(at)) + wording(lines.skip(at)),
{
    assert(lines == lines.take(at) + lines.skip(at));
    lemma_wording_add(lines.take(at), lines.skip(at));
}

proof fn lemma_wording_blank(lines: Seq<Seq<u8>>)
    requires
        forall|i: int| 0 <= i < lines.len() ==> blank(#[trigger] lines[i]),
    ensures
        wording(lines) == Seq::<Seq<u8>>::empty(),
    decreases lines.len(),
{
    if lines.len() > 0 {
        assert(blank(lines[lines.len() - 1]));
        lemma_wording_blank(lines.drop_last());
    }
}

/// A line feed at the end changes nothing of what a line says.
pub proof fn lemma_mark_terminator(line: Seq<u8>)
    ensures
        mark(with_terminator(line)) == mark(line),
        blank(with_terminator(line)) == blank(line),
{
    if !terminated(line) {
        let ended = line.push(LF);
        assert(ended.drop_last() == line);
        assert(stem(ended) == stem(line));
        let long = logical(line);
        let short = logical(ended);
        assert(long == line);
        if line.len() > 0 && line.last() == CR {
            assert(short == line.drop_last());
            if blank(ended) {
                assert forall|i: int| 0 <= i < long.len() implies ascii_space(
                    #[trigger] long[i],
                ) by {
                    if i < line.len() - 1 {
                        assert(long[i] == short[i]);
                    }
                }
            }
            if blank(line) {
                assert forall|i: int| 0 <= i < short.len() implies ascii_space(
                    #[trigger] short[i],
                ) by {
                    assert(short[i] == long[i]);
                }
            }
        } else {
            assert(short == line);
        }
    }
}

/// Nor does it matter to what a line says that its terminator goes.
pub proof fn lemma_mark_logical(line: Seq<u8>)
    requires
        one_line(line),
    ensures
        mark(logical(line)) == mark(line),
        blank(logical(line)) == blank(line),
{
    let text = logical(line);
    if terminated(line) {
        reveal_with_fuel(stem, 3);
        let short = line.drop_last();
        if line.len() > 1 && line[line.len() - 2] == CR {
            assert(text == short.drop_last());
        } else {
            assert(text == short);
        }
        assert(stem(line) == stem(text));
        if text.len() > 0 {
            assert(text.last() == line[text.len() - 1]);
        }
        assert(logical(text) == text);
    } else {
        assert(text == line);
    }
}

proof fn lemma_terminate_alike(lines: Seq<Seq<u8>>)
    ensures
        alike(terminate_last(lines), lines),
{
    if lines.len() > 0 {
        lemma_mark_terminator(lines.last());
    }
}

/// Lines that are made to end with a terminator, or without one, say the same.
proof fn lemma_ended_wording(lines: Seq<Seq<u8>>, with_newline: bool)
    requires
        unjoined(lines),
    ensures
        wording(ended(lines, with_newline)) == wording(lines),
{
    lemma_terminate_alike(lines);
    lemma_alike(terminate_last(lines), lines);
    lemma_unended_wording(lines);
}

proof fn lemma_unended_wording(lines: Seq<Seq<u8>>)
    requires
        unjoined(lines),
    ensures
        wording(unended(lines)) == wording(lines),
    decreases lines.len(),
{
    if lines.len() > 0 && terminated(lines.last()) {
        let rest = lines.drop_last();
        assert(unjoined(rest)) by {
            assert forall|i: int| 0 <= i < rest.len() implies one_line(#[trigger] rest[i])
                && terminated(rest[i]) by {
                assert(rest[i] == lines[i]);
            }
        }
        if logical(lines.last()).len() == 0 {
            lemma_unended_wording(rest);
            assert(blank(lines.last()));
        } else {
            lemma_mark_logical(lines.last());
            assert(alike(unended(lines), lines));
            lemma_alike(unended(lines), lines);
        }
    }
}

/// A newline by itself is blank.
pub proof fn lemma_newline_blank(lines: Seq<Seq<u8>>)
    ensures
        blank(newline_of(lines)),
{
    assert(logical(newline_of(lines)).len() == 0);
}

/// A block that is set in adds what it says, at its place, and nothing else.
proof fn lemma_set_in_wording(
    lines: Seq<Seq<u8>>,
    gap: int,
    block: Seq<Seq<u8>>,
    above: nat,
    below: nat,
    end: Option<bool>,
    newline: Seq<u8>,
)
    requires
        unjoined(block),
        0 <= gap <= lines.len(),
        blank(newline),
    ensures
        wording(set_in(lines, gap, block, above, below, end, newline)) == wording(lines.take(gap))
            + wording(block) + wording(lines.skip(gap)),
{
    let middle = landed(block, gap >= lines.len(), end);
    lemma_ended_wording(block, true);
    lemma_ended_wording(block, false);
    assert(wording(middle) == wording(block));
    if middle.len() > 0 {
        let head = terminate_last(lines.take(gap));
        let fill = repeated(newline, leading_fill(lines, gap, above));
        let lower = repeated(newline, trailing_fill(lines, gap, below));
        let tail = lines.skip(gap);
        lemma_terminate_alike(lines.take(gap));
        lemma_alike(head, lines.take(gap));
        lemma_wording_blank(fill);
        lemma_wording_blank(lower);
        lemma_wording_add(head, fill);
        lemma_wording_add(head + fill, middle);
        lemma_wording_add(head + fill + middle, lower);
        lemma_wording_add(head + fill + middle + lower, tail);
        assert(wording(head) + wording(fill) == wording(head));
        assert(wording(head) + wording(middle) + wording(lower) == wording(head) + wording(middle));
    } else {
        lemma_wording_split(lines, gap);
        assert(wording(block) == Seq::<Seq<u8>>::empty());
        assert(wording(lines.take(gap)) + wording(block) == wording(lines.take(gap)));
    }
}

/// A block set into a file adds what it says, at its place, and nothing else.
pub proof fn insertion_keeps_wording(
    lines: Seq<Seq<u8>>,
    gap: int,
    block: Seq<Seq<u8>>,
    above: nat,
    below: nat,
)
    requires
        unjoined(block),
        0 <= gap <= lines.len(),
    ensures
        wording(inserted(lines, gap, block, above, below)) == wording(lines.take(gap)) + wording(
            block,
        ) + wording(lines.skip(gap)),
{
    lemma_newline_blank(lines);
    lemma_set_in_wording(lines, gap, block, above, below, ending(lines), newline_of(lines));
}

/// Lines above an index that are all blank are counted by the run above it.
proof fn lemma_run_above_blank(lines: Seq<Seq<u8>>, gap: int, i: int)
    requires
        gap <= lines.len(),
        gap - run_above(lines, gap) <= i < gap,
    ensures
        0 <= i,
        blank(lines[i]),
    decreases gap,
{
    if i < gap - 1 {
        lemma_run_above_blank(lines, gap - 1, i);
    }
}

/// The lines that stay when a block goes say what the file said, without the
/// block.
proof fn lemma_staying_wording(lines: Seq<Seq<u8>>, from: int, to: int)
    requires
        unjoined(lines),
        1 <= from <= to <= lines.len(),
    ensures
        unjoined(staying(lines, from, to)),
        wording(staying(lines, from, to)) == wording(lines.take(from - 1)) + wording(
            lines.skip(to),
        ),
{
    let n = narrowed_by(lines, from, to);
    let rest = staying(lines, from, to);
    lemma_tidied(lines, from, to);
    assert(unjoined(rest)) by {
        assert forall|i: int| 0 <= i < rest.len() implies one_line(#[trigger] rest[i]) by {
            assert(rest[i] == lines[if i < from - 1 { i } else { i + (to - from + 1) + n }]);
        }
        assert forall|i: int| 0 <= i < rest.len() - 1 implies terminated(#[trigger] rest[i]) by {
            assert(rest[i] == lines[if i < from - 1 { i } else { i + (to - from + 1) + n }]);
        }
    }
    let head = lines.take(from - 1);
    let tail = lines.skip(to);
    lemma_wording_add(head, lines.skip(to + n));
    lemma_wording_split(tail, n);
    let gone = tail.take(n);
    assert forall|i: int| 0 <= i < gone.len() implies blank(#[trigger] gone[i]) by {
        lemma_run_is_blank(lines, to, to + i);
        assert(gone[i] == lines[to + i]);
    }
    lemma_wording_blank(gone);
    assert(tail.skip(n) == lines.skip(to + n));
    assert(wording(gone) + wording(tail.skip(n)) == wording(tail.skip(n)));
}

/// A source that gives up a block says what it said before, without the block.
pub proof fn tidying_keeps_wording(lines: Seq<Seq<u8>>, from: int, to: int)
    requires
        unjoined(lines),
        1 <= from <= to <= lines.len(),
    ensures
        wording(tidied(lines, from, to)) == wording(lines.take(from - 1)) + wording(
            lines.skip(to),
        ),
{
    lemma_tidied(lines, from, to);
    lemma_staying_wording(lines, from, to);
    lemma_ended_wording(staying(lines, from, to), terminated(lines.last()));
}

/// A block copied within its file, or into another, adds what it says at its
/// place; all else that the file says stays as it was.
pub proof fn copying_keeps_wording(
    target: Seq<Seq<u8>>,
    gap: int,
    lines: Seq<Seq<u8>>,
    from: int,
    to: int,
)
    requires
        unjoined(lines),
        1 <= from <= to <= lines.len(),
        0 <= gap <= target.len(),
    ensures
        wording(with_block(target, gap, lines, from, to)) == wording(target.take(gap)) + wording(
            block_of(lines, from, to),
        ) + wording(target.skip(gap)),
{
    lemma_block_unjoined(lines, from, to);
    insertion_keeps_wording(
        target,
        gap,
        block_of(lines, from, to),
        run_above(lines, from - 1),
        run_below(lines, to),
    );
}

/// A block that is moved away says the same where it lands, between the lines
/// that stay.
proof fn lemma_moved_wording(lines: Seq<Seq<u8>>, from: int, to: int, gap: int)
    requires
        unjoined(lines),
        1 <= from <= to <= lines.len(),
        0 <= gap <= lines.len(),
        gap < from || gap >= to,
        !in_place(from, to, gap),
    ensures
        ({
            let rest = staying(lines, from, to);
            let at = shifted_gap(lines, from, to, gap);
            wording(moved(lines, from, to, gap)) == wording(rest.take(at)) + wording(
                block_of(lines, from, to),
            ) + wording(rest.skip(at))
        }),
{
    let rest = staying(lines, from, to);
    let at = shifted_gap(lines, from, to, gap);
    let target = receiving(lines, from, to, gap);
    let tail = rest.skip(at);
    lemma_shifted_gap(lines, from, to, gap);
    lemma_staying_wording(lines, from, to);
    lemma_block_unjoined(lines, from, to);
    lemma_newline_blank(rest);
    assert(unjoined(tail)) by {
        assert forall|i: int| 0 <= i < tail.len() implies one_line(#[trigger] tail[i]) by {
            assert(tail[i] == rest[i + at]);
        }
        assert forall|i: int| 0 <= i < tail.len() - 1 implies terminated(#[trigger] tail[i]) by {
            assert(tail[i] == rest[i + at]);
        }
    }
    lemma_ended_wording(tail, terminated(lines.last()));
    lemma_set_in_wording(
        target,
        at,
        block_of(lines, from, to),
        run_above(lines, from - 1),
        run_below(lines, to),
        Some(terminated(lines.last())),
        newline_of(rest),
    );
    assert(target.take(at) == rest.take(at));
    assert(target.skip(at) == ended(tail, terminated(lines.last())));
}

/// A block moved upward within its file: what it says comes before what stood
/// between, and nothing else changes.
pub proof fn moving_up_keeps_wording(lines: Seq<Seq<u8>>, from: int, to: int, gap: int)
    requires
        unjoined(lines),
        1 <= from <= to <= lines.len(),
        0 <= gap < from,
    ensures
        wording(moved(lines, from, to, gap)) == wording(lines.take(gap)) + wording(
            block_of(lines, from, to),
        ) + wording(lines.subrange(gap, from - 1)) + wording(lines.skip(to)),
{
    let block = block_of(lines, from, to);
    let rest = staying(lines, from, to);
    let head = lines.take(gap);
    let between = wording(lines.subrange(gap, from - 1));
    let tail = wording(lines.skip(to));
    if gap == from - 1 {
        assert(lines.subrange(gap, from - 1) == Seq::<Seq<u8>>::empty());
        assert(wording(head) + wording(block) + between == wording(head) + wording(block));
        lemma_wording_split(lines, to);
        lemma_wording_split(lines.take(to), gap);
        assert(lines.take(to).take(gap) == head);
        assert(lines.take(to).skip(gap) == block);
    } else {
        lemma_shifted_gap(lines, from, to, gap);
        lemma_moved_wording(lines, from, to, gap);
        lemma_staying_wording(lines, from, to);
        assert(rest.take(gap) == head);
        lemma_wording_split(rest, gap);
        lemma_wording_split(lines.take(from - 1), gap);
        assert(lines.take(from - 1).take(gap) == head);
        assert(lines.take(from - 1).skip(gap) == lines.subrange(gap, from - 1));
        assert(wording(head) + between + tail == wording(head) + (between + tail));
        lemma_same_prefix(wording(head), wording(rest.skip(gap)), between + tail);
        assert(wording(head) + wording(block) + (between + tail) == wording(head) + wording(block)
            + between + tail);
    }
}

proof fn lemma_same_prefix(a: Seq<Seq<u8>>, b: Seq<Seq<u8>>, c: Seq<Seq<u8>>)
    requires
        a + b == a + c,
    ensures
        b == c,
{
    assert((a + b).skip(a.len() as int) == b);
    assert((a + c).skip(a.len() as int) == c);
}

proof fn lemma_same_suffix(a: Seq<Seq<u8>>, b: Seq<Seq<u8>>, c: Seq<Seq<u8>>)
    requires
        b + a == c + a,
    ensures
        b == c,
{
    assert(b.len() + a.len() == (b + a).len());
    assert(c.len() + a.len() == (c + a).len());
    let n = b.len() as int;
    assert((b + a).take(n) == b);
    assert((c + a).take(n) == c);
}

/// A block moved downward within its file: what it says comes after what stood
/// between, and nothing else changes.
pub proof fn moving_down_keeps_wording(lines: Seq<Seq<u8>>, from: int, to: int, gap: int)
    requires
        unjoined(lines),
        1 <= from <= to <= lines.len(),
        to <= gap <= lines.len(),
    ensures
        wording(moved(lines, from, to, gap)) == wording(lines.take(from - 1)) + wording(
            lines.subrange(to, gap),
        ) + wording(block_of(lines, from, to)) + wording(lines.skip(gap)),
{
    let block = block_of(lines, from, to);
    let rest = staying(lines, from, to);
    let head = wording(lines.take(from - 1));
    let between = wording(lines.subrange(to, gap));
    let tail = wording(lines.skip(gap));
    if gap == to {
        assert(lines.subrange(to, gap) == Seq::<Seq<u8>>::empty());
        assert(head + between == head);
        lemma_wording_split(lines, to);
        lemma_wording_split(lines.take(to), from - 1);
        assert(lines.take(to).take(from - 1) == lines.take(from - 1));
        assert(lines.take(to).skip(from - 1) == block);
    } else {
        let n = narrowed_by(lines, from, to);
        let at = shifted_gap(lines, from, to, gap);
        lemma_shifted_gap(lines, from, to, gap);
        lemma_moved_wording(lines, from, to, gap);
        lemma_staying_wording(lines, from, to);
        lemma_wording_split(rest, at);
        lemma_wording_split(lines.skip(to), gap - to);
        assert(lines.skip(to).take(gap - to) == lines.subrange(to, gap));
        assert(lines.skip(to).skip(gap - to) == lines.skip(gap));
        let low = rest.skip(at);
        let kept = lines.skip(gap);
        assert forall|i: int| 0 <= i < low.len() implies mark(#[trigger] low[i]) == mark(
            kept[i],
        ) by {
            if at + i >= from - 1 {
                assert(low[i] == lines[gap + i]);
            } else {
                assert(low[i] == lines[at + i]);
                lemma_run_above_blank(lines, from - 1, at + i);
                lemma_run_is_blank(lines, to, gap + i);
            }
        }
        lemma_alike(low, kept);
        assert(head + (between + tail) == head + between + tail);
        lemma_same_suffix(tail, wording(rest.take(at)), head + between);
    }
}

} // verus!
