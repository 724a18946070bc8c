//! The words of a refusal: what they name, and the commands that they give.

use vstd::prelude::*;

use crate::laws::advice::{lemma_one_anchored, lemma_two_anchored};
use crate::laws::characters::occurrences_by_byte_are_by_character;
use crate::laws::vocabulary::{bare_part, occurrences_have_two_sides, trimming_takes_white_ends};
use crate::numeral::{decimal_text, signed_text};
use crate::outside::quoted_text;
use crate::search::{occurs, occurs_at};
use crate::suggest::{
    anchor_of, anchored, anchored_count, decisive, deletion_reason, end_anchors, flag_text,
    guard_of, holds, insertion_reason, nearest, neighbor, reach, toward, with_coordinates,
    AnchorView,
};
use crate::text::{logical_lines, trimmed};

verus! {

/// What stands in place of a guard that a blank line cannot give.
pub open spec fn placeholder() -> Seq<char> {
    "<pick a distinctive line>"@
}

/// The guard is the line without whitespace at its ends, of which at most sixty
/// characters are taken, or the placeholder where nothing is left.
pub open spec fn guards(line: Seq<char>, guard: Seq<char>) -> bool {
    exists|i: int, j: int|
        #![trigger bare_part(line, line.subrange(i, j), i, j)]
        bare_part(line, line.subrange(i, j), i, j) && if i == j {
            guard == placeholder()
        } else if j - i > 60 {
            guard == line.subrange(i, i + 60)
        } else {
            guard == line.subrange(i, j)
        }
}

/// The guard that is suggested for a line is taken from it.
pub proof fn guards_are_taken_from_the_line(line: Seq<char>)
    ensures
        guards(line, guard_of(line)),
{
    trimming_takes_white_ends(line);
    let (i, j) = choose|i: int, j: int| bare_part(line, trimmed(line), i, j);
    assert(trimmed(line) == line.subrange(i, j));
    if j - i > 60 {
        assert(line.subrange(i, j).take(60) =~= line.subrange(i, i + 60));
    }
    assert(bare_part(line, line.subrange(i, j), i, j));
}

/// The line at index `i` holds the guard, and the line `offset` below it holds
/// the text.
pub open spec fn both(
    lines: Seq<Seq<char>>,
    i: int,
    guard: Seq<char>,
    offset: int,
    text: Seq<char>,
) -> bool {
    &&& 0 <= i < lines.len()
    &&& 0 <= i + offset < lines.len()
    &&& occurs(lines[i], guard)
    &&& occurs(lines[i + offset], text)
}

/// The line `offset` below that at index `at` settles which of the lines with
/// the guard is meant: it exists and is not blank, and with its guard there is
/// one such line and no other.
pub open spec fn settles(lines: Seq<Seq<char>>, at: int, guard: Seq<char>, offset: int) -> bool {
    &&& 0 <= at + offset < lines.len()
    &&& guard_of(lines[at + offset]) != placeholder()
    &&& exists|i: int| #[trigger] both(lines, i, guard, offset, guard_of(lines[at + offset]))
    &&& forall|i: int, j: int|
        #[trigger] both(lines, i, guard, offset, guard_of(lines[at + offset])) && #[trigger] both(
            lines,
            j,
            guard,
            offset,
            guard_of(lines[at + offset]),
        ) ==> i == j
}

/// The guard stands in one line at most.
pub open spec fn is_single(lines: Seq<Seq<char>>, guard: Seq<char>) -> bool {
    forall|i: int, j: int|
        0 <= i < lines.len() && 0 <= j < lines.len() && #[trigger] occurs(lines[i], guard)
            && #[trigger] occurs(lines[j], guard) ==> i == j
}

/// How far a neighbor is away.
pub open spec fn distance(offset: int) -> int {
    if offset < 0 {
        -offset
    } else {
        offset
    }
}

/// The anchor is what is suggested for the line at index `at`, the rest of the
/// block lying in direction `dir`: the line's guard, by itself where no other
/// line holds it, and else with the nearest neighbor that settles which line is
/// meant, where there is one; of two that are equally near, with that inside the
/// block.
pub open spec fn anchors(lines: Seq<Seq<char>>, at: int, dir: int, anchor: AnchorView) -> bool {
    let guard = anchor.guard;
    &&& guards(lines[at], guard)
    &&& match anchor.context {
        None => {
            ||| guard == placeholder()
            ||| is_single(lines, guard)
            ||| forall|offset: int|
                offset != 0 && distance(offset) <= i64::MAX ==> !#[trigger] settles(
                    lines,
                    at,
                    guard,
                    offset,
                )
        },
        Some((offset, text)) => {
            &&& guard != placeholder()
            &&& !is_single(lines, guard)
            &&& offset != 0
            &&& guards(lines[at + offset], text)
            &&& settles(lines, at, guard, offset)
            &&& forall|nearer: int|
                nearer != 0 && distance(nearer) < distance(offset) ==> !#[trigger] settles(
                    lines,
                    at,
                    guard,
                    nearer,
                )
            &&& (dir > 0) != (offset > 0) ==> !settles(lines, at, guard, -offset)
        },
    }
}

proof fn lemma_holds(line: Seq<char>, guard: Seq<char>)
    ensures
        holds(line, guard) == occurs(line, guard),
{
    occurrences_by_byte_are_by_character(line, guard);
}

/// A count is not made of nothing.
proof fn lemma_counted(
    lines: Seq<Seq<char>>,
    guard: Seq<char>,
    context: Option<(int, Seq<char>)>,
    n: int,
)
    requires
        n <= lines.len(),
    ensures
        anchored_count(lines, guard, context, n) >= 1 ==> exists|i: int|
            0 <= i < n && #[trigger] anchored(lines, i, guard, context),
        anchored_count(lines, guard, context, n) >= 2 ==> exists|i: int, j: int|
            0 <= i < j < n && #[trigger] anchored(lines, i, guard, context) && #[trigger] anchored(
                lines,
                j,
                guard,
                context,
            ),
    decreases n,
{
    if n > 0 {
        lemma_counted(lines, guard, context, n - 1);
        if anchored(lines, n - 1, guard, context) {
            if anchored_count(lines, guard, context, n) >= 2 {
                let i = choose|i: int|
                    0 <= i < n - 1 && #[trigger] anchored(lines, i, guard, context);
                assert(anchored(lines, i, guard, context) && anchored(
                    lines,
                    n - 1,
                    guard,
                    context,
                ));
            }
        }
    }
}

proof fn lemma_single(lines: Seq<Seq<char>>, guard: Seq<char>)
    ensures
        is_single(lines, guard) <==> anchored_count(lines, guard, None, lines.len() as int) <= 1,
{
    let n = lines.len() as int;
    lemma_counted(lines, guard, None, n);
    assert forall|i: int| 0 <= i < n implies #[trigger] anchored(lines, i, guard, None) == occurs(
        lines[i],
        guard,
    ) by {
        lemma_holds(lines[i], guard);
    }
    if anchored_count(lines, guard, None, n) >= 2 {
        let (i, j) = choose|i: int, j: int|
            0 <= i < j < n && #[trigger] anchored(lines, i, guard, None) && #[trigger] anchored(
                lines,
                j,
                guard,
                None,
            );
        assert(occurs(lines[i], guard) && occurs(lines[j], guard));
    } else {
        assert forall|i: int, j: int|
            0 <= i < n && 0 <= j < n && #[trigger] occurs(lines[i], guard) && #[trigger] occurs(
                lines[j],
                guard,
            ) implies i == j by {
            assert(anchored(lines, i, guard, None));
            assert(anchored(lines, j, guard, None));
            if i < j {
                lemma_two_anchored(lines, guard, None, n, i, j);
            }
            if j < i {
                lemma_two_anchored(lines, guard, None, n, j, i);
            }
        }
    }
}

proof fn lemma_settles(lines: Seq<Seq<char>>, at: int, guard: Seq<char>, offset: int)
    ensures
        settles(lines, at, guard, offset) <==> decisive(lines, at, guard, offset),
{
    if 0 <= at + offset < lines.len() {
        let n = lines.len() as int;
        let text = guard_of(lines[at + offset]);
        let context = neighbor(lines, at, offset);
        lemma_counted(lines, guard, context, n);
        assert forall|i: int| 0 <= i < n implies #[trigger] anchored(lines, i, guard, context)
            == both(lines, i, guard, offset, text) by {
            lemma_holds(lines[i], guard);
            if 0 <= i + offset < n {
                lemma_holds(lines[i + offset], text);
            }
        }
        let count = anchored_count(lines, guard, context, n);
        if count >= 2 {
            let (i, j) = choose|i: int, j: int|
                0 <= i < j < n && #[trigger] anchored(lines, i, guard, context)
                    && #[trigger] anchored(lines, j, guard, context);
            assert(both(lines, i, guard, offset, text) && both(lines, j, guard, offset, text));
        } else {
            assert forall|i: int, j: int|
                #[trigger] both(lines, i, guard, offset, text) && #[trigger] both(
                    lines,
                    j,
                    guard,
                    offset,
                    text,
                ) implies i == j by {
                assert(anchored(lines, i, guard, context));
                assert(anchored(lines, j, guard, context));
                if i < j {
                    lemma_two_anchored(lines, guard, context, n, i, j);
                }
                if j < i {
                    lemma_two_anchored(lines, guard, context, n, j, i);
                }
            }
        }
        if count >= 1 {
            let i = choose|i: int| 0 <= i < n && #[trigger] anchored(lines, i, guard, context);
            assert(both(lines, i, guard, offset, text));
        }
        if exists|i: int| #[trigger] both(lines, i, guard, offset, text) {
            let i = choose|i: int| #[trigger] both(lines, i, guard, offset, text);
            assert(anchored(lines, i, guard, context));
            lemma_one_anchored(lines, guard, context, n, i);
        }
    }
}

/// What the search for a neighbor finds is the nearest.
proof fn lemma_nearest(
    lines: Seq<Seq<char>>,
    at: int,
    guard: Seq<char>,
    dir: int,
    m: int,
    limit: int,
)
    requires
        dir != 0,
        0 <= m,
    ensures
        match nearest(lines, at, guard, dir, m, limit) {
            Some(offset) => {
                &&& m < distance(offset) <= limit
                &&& decisive(lines, at, guard, offset)
                &&& forall|nearer: int|
                    m < distance(nearer) < distance(offset) ==> !#[trigger] decisive(
                        lines,
                        at,
                        guard,
                        nearer,
                    )
                &&& (dir > 0) != (offset > 0) ==> !decisive(lines, at, guard, -offset)
            },
            None => forall|offset: int|
                m < distance(offset) <= limit ==> !#[trigger] decisive(lines, at, guard, offset),
        },
    decreases limit - m,
{
    if m < limit {
        lemma_nearest(lines, at, guard, dir, m + 1, limit);
        let inside = toward(dir, m + 1);
        let outside = toward(-dir, m + 1);
        assert(inside == -outside);
        assert forall|offset: int|
            distance(offset) == m + 1 implies offset == inside || offset == outside by {}
    }
}

/// Every suggested anchor is the nearest that there is.
pub proof fn suggested_anchors_are_nearest(lines: Seq<Seq<char>>, at: int, dir: int)
    requires
        0 <= at < lines.len(),
        dir != 0,
    ensures
        anchors(lines, at, dir, anchor_of(lines, at, dir)),
{
    let anchor = anchor_of(lines, at, dir);
    let guard = guard_of(lines[at]);
    let limit = reach(lines);
    guards_are_taken_from_the_line(lines[at]);
    lemma_single(lines, guard);
    lemma_nearest(lines, at, guard, dir, 0, limit);
    assert forall|offset: int| #[trigger]
        settles(lines, at, guard, offset) == decisive(lines, at, guard, offset) by {
        lemma_settles(lines, at, guard, offset);
    }
    match anchor.context {
        None => {
            if guard != placeholder() && !is_single(lines, guard) {
                assert forall|offset: int|
                    offset != 0 && distance(offset) <= i64::MAX implies !#[trigger] settles(
                    lines,
                    at,
                    guard,
                    offset,
                ) by {
                    assert(settles(lines, at, guard, offset) == decisive(
                        lines,
                        at,
                        guard,
                        offset,
                    ));
                    if settles(lines, at, guard, offset) {
                        assert(distance(offset) < lines.len());
                        assert(!decisive(lines, at, guard, offset));
                    }
                }
            }
        },
        Some((offset, text)) => {
            guards_are_taken_from_the_line(lines[at + offset]);
            assert(settles(lines, at, guard, offset));
            assert forall|nearer: int|
                nearer != 0 && distance(nearer) < distance(offset) implies !#[trigger] settles(
                lines,
                at,
                guard,
                nearer,
            ) by {
                assert(!decisive(lines, at, guard, nearer));
            }
            assert(settles(lines, at, guard, -offset) == decisive(lines, at, guard, -offset));
        },
    }
}

/// The anchors are what is suggested for the two ends of a block that is said to
/// stand at line `start` of a text: where it does stand there, the nearest that
/// settle it; else, or where there is no text, the guards of its first line and
/// its last.
pub open spec fn suggested(
    block: Seq<Seq<char>>,
    start: int,
    text: Option<Seq<char>>,
    from: AnchorView,
    to: AnchorView,
) -> bool {
    match text {
        Some(text) if occurs_at(logical_lines(text), block, start - 1) => {
            &&& anchors(logical_lines(text), start - 1, 1, from)
            &&& anchors(logical_lines(text), start - 1 + block.len() - 1, -1, to)
        },
        _ => {
            &&& guards(block[0], from.guard) && from.context is None
            &&& guards(block.last(), to.guard) && to.context is None
        },
    }
}

/// Both ends of a block are anchored as is suggested.
pub proof fn ends_are_anchored(block: Seq<Seq<char>>, start: int, text: Option<Seq<char>>)
    requires
        block.len() > 0,
    ensures
        suggested(
            block,
            start,
            text,
            end_anchors(block, start, text).0,
            end_anchors(block, start, text).1,
        ),
{
    guards_are_taken_from_the_line(block[0]);
    guards_are_taken_from_the_line(block.last());
    if let Some(text) = text {
        let lines = logical_lines(text);
        if occurs_at(lines, block, start - 1) {
            suggested_anchors_are_nearest(lines, start - 1, 1);
            suggested_anchors_are_nearest(lines, start - 2 + block.len(), -1);
        }
    }
}

/// The flag that hands over a neighbor anchor, or nothing.
pub open spec fn handed(flag: Seq<char>, context: Option<(int, Seq<char>)>) -> Seq<char> {
    match context {
        Some((offset, text)) => flag + quoted_text(signed_text(offset) + seq![':'] + text),
        None => Seq::empty(),
    }
}

/// The flags for the lines `from` to `to` with their anchors.
pub open spec fn ends_flags(from: int, to: int, a: AnchorView, b: AnchorView) -> Seq<char> {
    " --from "@ + decimal_text(from as nat) + " --from-guard "@ + quoted_text(a.guard) + handed(
        " --from-context "@,
        a.context,
    ) + " --to "@ + decimal_text(to as nat) + " --to-guard "@ + quoted_text(b.guard) + handed(
        " --to-context "@,
        b.context,
    )
}

proof fn lemma_flags(out: Seq<char>, from: nat, to: nat, ends: (AnchorView, AnchorView))
    ensures
        with_coordinates(out, from, to, ends) == out + ends_flags(
            from as int,
            to as int,
            ends.0,
            ends.1,
        ),
{
    neighbor_flags_are_those_of_their_role("from"@, ends.0.context);
    neighbor_flags_are_those_of_their_role("to"@, ends.1.context);
    lemma_words();
    assert(with_coordinates(out, from, to, ends) =~= out + ends_flags(
        from as int,
        to as int,
        ends.0,
        ends.1,
    ));
}

proof fn lemma_words()
    ensures
        " --"@ + "from"@ + "-context "@ == " --from-context "@,
        " --"@ + "to"@ + "-context "@ == " --to-context "@,
        ":"@ == seq![':'],
{
    reveal_strlit(" --");
    reveal_strlit("from");
    reveal_strlit("to");
    reveal_strlit("-context ");
    reveal_strlit(" --from-context ");
    reveal_strlit(" --to-context ");
    reveal_strlit(":");
    assert(" --"@ + "from"@ + "-context "@ =~= " --from-context "@);
    assert(" --"@ + "to"@ + "-context "@ =~= " --to-context "@);
    assert(":"@ =~= seq![':']);
}

/// A neighbor anchor is handed over with the flag of its coordinate.
pub proof fn neighbor_flags_are_those_of_their_role(
    role: Seq<char>,
    context: Option<(int, Seq<char>)>,
)
    ensures
        flag_text(role, context) == handed(" --"@ + role + "-context "@, context),
{
    lemma_words();
}

/// The reason tells that the block of `n` lines stands at `path` from line
/// `start` on, and gives the command that moves it from there, which names the
/// file that it goes to where that is another.
pub open spec fn advises_moving(
    reason: Seq<char>,
    block: Seq<Seq<char>>,
    path: Seq<char>,
    start: int,
    text: Option<Seq<char>>,
    dest: Option<Seq<char>>,
) -> bool {
    let last = start + block.len() - 1;
    block.len() > 0 ==> exists|from: AnchorView, to: AnchorView|
        #[trigger] suggested(block, start, text, from, to) && {
            let command = "span move "@ + path + ends_flags(start, last, from, to)
                + " --dest <LINE> --dest-guard \"<TEXT ON DEST LINE>\" --after"@ + match dest {
                Some(file) => " --dest-file "@ + file,
                None => Seq::empty(),
            } + "\n"@;
            &&& occurs(
                reason,
                "This "@ + decimal_text(block.len()) + "-line block already exists verbatim at "@
                    + path + ":"@ + decimal_text(start as nat) + "-"@ + decimal_text(last as nat),
            )
            &&& occurs(reason, command)
        }
}

/// The reason tells that the block need not be reproduced, and where else it
/// stands, and gives the command that moves it from line `start` of the file and
/// the one that deletes it there.
pub open spec fn advises_deleting(
    reason: Seq<char>,
    block: Seq<Seq<char>>,
    path: Seq<char>,
    start: int,
    text: Seq<char>,
    elsewhere: Option<Seq<char>>,
) -> bool {
    let last = start + block.len() - 1;
    block.len() > 0 ==> exists|from: AnchorView, to: AnchorView|
        #[trigger] suggested(block, start, Some(text), from, to) && {
            let span = "span move "@ + path + ends_flags(start, last, from, to);
            &&& occurs(reason, "Deleting this "@ + decimal_text(block.len()) + "-line block"@)
            &&& elsewhere matches Some(place) ==> occurs(
                reason,
                " It also appears verbatim at "@ + place + ", so"@,
            )
            &&& occurs(
                reason,
                span + " --dest <LINE> --dest-guard \"<TEXT ON DEST LINE>\" --after"@ + "\n"@,
            )
            &&& occurs(reason, span + " --force"@ + "\n"@)
        }
}

proof fn lemma_lead_in() -> (front: Seq<char>)
    ensures
        ". Re-emitting it through the string editor risks silent corruption and carries the bytes as input on every later turn. Relocate it by reference with span instead:\n\n  span move "@
            == front + "span move "@,
{
    let text =
        ". Re-emitting it through the string editor risks silent corruption and carries the bytes as input on every later turn. Relocate it by reference with span instead:\n\n  span move "@;
    reveal_strlit(
        ". Re-emitting it through the string editor risks silent corruption and carries the bytes as input on every later turn. Relocate it by reference with span instead:\n\n  span move ",
    );
    reveal_strlit("span move ");
    let front = text.take(text.len() - "span move "@.len());
    assert(text =~= front + "span move "@);
    front
}

proof fn lemma_fill_in() -> (back: Seq<char>)
    ensures
        "\n\nFill in --dest/--dest-guard for the insertion point (choose --before or --after), and use `span copy` (same flags) if you are duplicating rather than moving."@
            == "\n"@ + back,
{
    let text =
        "\n\nFill in --dest/--dest-guard for the insertion point (choose --before or --after), and use `span copy` (same flags) if you are duplicating rather than moving."@;
    reveal_strlit(
        "\n\nFill in --dest/--dest-guard for the insertion point (choose --before or --after), and use `span copy` (same flags) if you are duplicating rather than moving.",
    );
    reveal_strlit("\n");
    let back = text.skip("\n"@.len() as int);
    assert(text =~= "\n"@ + back);
    back
}

proof fn lemma_through() -> (back: Seq<char>)
    ensures
        "-line block through the string editor forces you to reproduce all "@
            == "-line block"@ + back,
{
    let text =
        "-line block through the string editor forces you to reproduce all "@;
    reveal_strlit(
        "-line block through the string editor forces you to reproduce all ",
    );
    reveal_strlit("-line block");
    let back = text.skip("-line block"@.len() as int);
    assert(text =~= "-line block"@ + back);
    back
}

proof fn lemma_source_half() -> (back: Seq<char>)
    ensures
        ", so this looks like the source half of a move."@
            == ", so"@ + back,
{
    let text =
        ", so this looks like the source half of a move."@;
    reveal_strlit(
        ", so this looks like the source half of a move.",
    );
    reveal_strlit(", so");
    let back = text.skip(", so"@.len() as int);
    assert(text =~= ", so"@ + back);
    back
}

proof fn lemma_relocating() -> (front: Seq<char>)
    ensures
        " Do it by reference instead:\n\n  Relocating it? →\n    span move "@
            == front + "span move "@,
{
    let text =
        " Do it by reference instead:\n\n  Relocating it? →\n    span move "@;
    reveal_strlit(
        " Do it by reference instead:\n\n  Relocating it? →\n    span move ",
    );
    reveal_strlit("span move ");
    let front = text.take(text.len() - "span move "@.len());
    assert(text =~= front + "span move "@);
    front
}

proof fn lemma_deleting() -> (middle: Seq<char>)
    ensures
        "\n\n  Genuinely deleting it? →\n    span move "@
            == "\n"@ + middle + "span move "@,
{
    let text = "\n\n  Genuinely deleting it? →\n    span move "@;
    reveal_strlit("\n\n  Genuinely deleting it? →\n    span move ");
    reveal_strlit("\n");
    reveal_strlit("span move ");
    let middle = text.subrange(1, text.len() - 10);
    assert(text =~= "\n"@ + middle + "span move "@);
    middle
}

proof fn lemma_delete_form() -> (back: Seq<char>)
    ensures
        "\n\nThe delete form requires --force as a deliberate acknowledgment; deletes run via `span … --force` go through your shell and are not interrupted by this hook."@
            == "\n"@ + back,
{
    let text =
        "\n\nThe delete form requires --force as a deliberate acknowledgment; deletes run via `span … --force` go through your shell and are not interrupted by this hook."@;
    reveal_strlit(
        "\n\nThe delete form requires --force as a deliberate acknowledgment; deletes run via `span … --force` go through your shell and are not interrupted by this hook.",
    );
    reveal_strlit("\n");
    let back = text.skip("\n"@.len() as int);
    assert(text =~= "\n"@ + back);
    back
}

proof fn lemma_within(hay: Seq<char>, a: Seq<char>, needle: Seq<char>, b: Seq<char>)
    requires
        hay == a + needle + b,
    ensures
        occurs(hay, needle),
{
    occurrences_have_two_sides(hay, needle);
}

proof fn lemma_seven(
    a: Seq<char>,
    pre: Seq<char>,
    word: Seq<char>,
    path: Seq<char>,
    flags: Seq<char>,
    dest: Seq<char>,
    more: Seq<char>,
    newline: Seq<char>,
    rest: Seq<char>,
)
    ensures
        a + (pre + word) + path + flags + dest + more + (newline + rest) == (a + pre) + (word + path
            + flags + dest + more + newline) + rest,
        a + (pre + word) + path + flags + dest + more + (newline + rest) == Seq::empty() + a + (pre
            + word + path + flags + dest + more + newline + rest),
{
    assert(a + (pre + word) + path + flags + dest + more + (newline + rest) =~= (a + pre) + (word
        + path + flags + dest + more + newline) + rest);
    assert(a + (pre + word) + path + flags + dest + more + (newline + rest) =~= Seq::empty() + a + (
    pre + word + path + flags + dest + more + newline + rest));
}

/// The reason for refusing an insertion gives the command that moves the block.
pub proof fn insertions_are_answered_with_a_command(
    block: Seq<Seq<char>>,
    path: Seq<char>,
    start: nat,
    text: Option<Seq<char>>,
    dest: Option<Seq<char>>,
)
    ensures
        advises_moving(
            insertion_reason(block, path, start, text, dest),
            block,
            path,
            start as int,
            text,
            dest,
        ),
{
    if block.len() > 0 {
        let reason = insertion_reason(block, path, start, text, dest);
        let n = block.len();
        let last = (start + n - 1) as nat;
        let ends = end_anchors(block, start as int, text);
        let (from, to) = (ends.0, ends.1);
        ends_are_anchored(block, start as int, text);
        let pre = lemma_lead_in();
        let rest = lemma_fill_in();
        let told = "This "@ + decimal_text(n) + "-line block already exists verbatim at "@ + path
            + ":"@ + decimal_text(start) + "-"@ + decimal_text(last);
        let head = told + (pre + "span move "@) + path;
        let flags = ends_flags(start as int, last as int, from, to);
        let where_to = " --dest <LINE> --dest-guard \"<TEXT ON DEST LINE>\" --after"@;
        lemma_flags(head, start, last, ends);
        let more = match dest {
            Some(file) => " --dest-file "@ + file,
            None => Seq::empty(),
        };
        lemma_seven(told, pre, "span move "@, path, flags, where_to, more, "\n"@, rest);
        assert(reason == told + (pre + "span move "@) + path + flags + where_to + more + ("\n"@
            + rest)) by {
            let placed = head + flags + where_to;
            match dest {
                Some(file) => {
                    assert(placed + " --dest-file "@ + file =~= placed + more);
                },
                None => {
                    assert(placed + more =~= placed);
                },
            }
        }
        let command = "span move "@ + path + flags + where_to + more + "\n"@;
        lemma_within(reason, told + pre, command, rest);
        lemma_within(
            reason,
            Seq::empty(),
            told,
            pre + "span move "@ + path + flags + where_to + more + "\n"@ + rest,
        );
        assert(suggested(block, start as int, text, from, to));
    }
}

proof fn lemma_two_commands(
    a: Seq<char>,
    word: Seq<char>,
    path: Seq<char>,
    flags: Seq<char>,
    dest: Seq<char>,
    newline: Seq<char>,
    middle: Seq<char>,
    force: Seq<char>,
    rest: Seq<char>,
)
    ensures
        ({
            let whole = a + word + path + flags + dest + (newline + middle + word) + path + flags
                + force + (newline + rest);
            let span = word + path + flags;
            &&& whole == a + (span + dest + newline) + (middle + word + path + flags + force
                + newline + rest)
            &&& whole == (a + word + path + flags + dest + newline + middle) + (span + force
                + newline) + rest
            &&& whole == a + (word + path + flags + dest + newline + middle + word + path + flags
                + force + newline + rest)
        }),
{
    let whole = a + word + path + flags + dest + (newline + middle + word) + path + flags + force
        + (newline + rest);
    let span = word + path + flags;
    assert(whole =~= a + (span + dest + newline) + (middle + word + path + flags + force + newline
        + rest));
    assert(whole =~= (a + word + path + flags + dest + newline + middle) + (span + force + newline)
        + rest);
    assert(whole =~= a + (word + path + flags + dest + newline + middle + word + path + flags
        + force + newline + rest));
}

/// The parts of a text that tells something in front, with a note behind it.
proof fn lemma_noted(
    told: Seq<char>,
    through: Seq<char>,
    after_told: Seq<char>,
    also: Seq<char>,
    place: Seq<char>,
    so: Seq<char>,
    half: Seq<char>,
    lead: Seq<char>,
    behind: Seq<char>,
)
    ensures
        ({
            let opening = told + through + after_told;
            let noted = opening + also + place + (so + half) + lead + behind;
            &&& noted == opening + (also + place + so) + (half + lead + behind)
            &&& noted == Seq::empty() + told + (through + after_told + also + place + so + half
                + lead + behind)
        }),
{
    let opening = told + through + after_told;
    let noted = opening + also + place + (so + half) + lead + behind;
    assert(noted =~= opening + (also + place + so) + (half + lead + behind));
    assert(noted =~= Seq::empty() + told + (through + after_told + also + place + so + half + lead
        + behind));
}

proof fn lemma_unnoted(
    told: Seq<char>,
    through: Seq<char>,
    after_told: Seq<char>,
    lead: Seq<char>,
    behind: Seq<char>,
)
    ensures
        told + through + after_told + lead + behind == Seq::empty() + told + (through + after_told
            + lead + behind),
{
    assert(told + through + after_told + lead + behind =~= Seq::empty() + told + (through
        + after_told + lead + behind));
}

proof fn lemma_opening(
    deleting: Seq<char>,
    n: Seq<char>,
    line: Seq<char>,
    through: Seq<char>,
    lines: Seq<char>,
)
    ensures
        deleting + n + (line + through) + n + lines == deleting + n + line + through + (n + lines),
{
    assert(deleting + n + (line + through) + n + lines =~= deleting + n + line + through + (n
        + lines));
}

proof fn lemma_lead(noted: Seq<char>, lead: Seq<char>, word: Seq<char>)
    ensures
        noted + (lead + word) == noted + lead + word,
{
    assert(noted + (lead + word) =~= noted + lead + word);
}

/// The reason for refusing a deletion gives the commands that move the block and
/// delete it.
#[verifier::rlimit(30)]
pub proof fn deletions_are_answered_with_two_commands(
    block: Seq<Seq<char>>,
    path: Seq<char>,
    start: nat,
    text: Seq<char>,
    elsewhere: Option<Seq<char>>,
)
    ensures
        advises_deleting(
            deletion_reason(block, path, start, text, elsewhere),
            block,
            path,
            start as int,
            text,
            elsewhere,
        ),
{
    if block.len() > 0 {
        let reason = deletion_reason(block, path, start, text, elsewhere);
        let n = decimal_text(block.len());
        let last = (start + block.len() - 1) as nat;
        let ends = end_anchors(block, start as int, Some(text));
        let (from, to) = (ends.0, ends.1);
        ends_are_anchored(block, start as int, Some(text));
        let through = lemma_through();
        let half = lemma_source_half();
        let lead = lemma_relocating();
        let middle = lemma_deleting();
        let rest = lemma_delete_form();
        let word = "span move "@;
        let newline = "\n"@;
        let force = " --force"@;
        let flags = ends_flags(start as int, last as int, from, to);
        let where_to = " --dest <LINE> --dest-guard \"<TEXT ON DEST LINE>\" --after"@;
        let told = "Deleting this "@ + n + "-line block"@;
        let after_told = n
            + " lines verbatim in old_string — the same re-emit cost and corruption risk span removes."@;
        let opening = told + through + after_told;
        let noted = match elsewhere {
            Some(place) => opening + " It also appears verbatim at "@ + place + (", so"@ + half),
            None => opening,
        };
        let a = noted + lead;
        let relocating = a + word + path + flags + where_to;
        assert(reason == a + word + path + flags + where_to + (newline + middle + word) + path
            + flags + force + (newline + rest)) by {
            lemma_opening(
                "Deleting this "@,
                n,
                "-line block"@,
                through,
                " lines verbatim in old_string — the same re-emit cost and corruption risk span removes."@,
            );
            lemma_lead(noted, lead, word);
            lemma_flags(a + word + path, start, last, ends);
            lemma_flags(relocating + (newline + middle + word) + path, start, last, ends);
        }
        lemma_two_commands(a, word, path, flags, where_to, newline, middle, force, rest);
        let span = word + path + flags;
        let behind = word + path + flags + where_to + newline + middle + word + path + flags + force
            + newline + rest;
        lemma_within(
            reason,
            a,
            span + where_to + newline,
            middle + word + path + flags + force + newline + rest,
        );
        lemma_within(
            reason,
            a + word + path + flags + where_to + newline + middle,
            span + force + newline,
            rest,
        );
        match elsewhere {
            Some(place) => {
                let also = " It also appears verbatim at "@;
                let so = ", so"@;
                lemma_noted(told, through, after_told, also, place, so, half, lead, behind);
                lemma_within(reason, opening, also + place + so, half + lead + behind);
                lemma_within(
                    reason,
                    Seq::empty(),
                    told,
                    through + after_told + also + place + so + half + lead + behind,
                );
            },
            None => {
                lemma_unnoted(told, through, after_told, lead, behind);
                lemma_within(reason, Seq::empty(), told, through + after_told + lead + behind);
            },
        }
        assert(suggested(block, start as int, Some(text), from, to));
    }
}

} // verus!
