//! The hook: what it looks at, when it speaks up, and that its advice works.

use vstd::prelude::*;
use vstd::utf8::encode_utf8;

use crate::anchor::{bears, resolution, satisfied, ContextView};
use crate::candidate::{
    all_edited, called, edited, CandidateView, EditInput, Tell, ToolInput, DELETE_DENY_MIN_LINES,
    DENY_MIN_LINES,
};
use crate::error::{ErrorView, Role};
use crate::hook::{largest, verdict_on, Scan};
use crate::laws::characters::{
    guards_by_byte_are_by_character, occurrences_by_byte_are_by_character,
};
use crate::laws::coordinates::{only_match, resolves_to_the_only_match};
use crate::lines::split_lines;
use crate::search::{occurs, occurs_at};
use crate::suggest::{
    anchor_of, anchored, anchored_count, decisive, guard_of, holds, nearest, neighbor, reach,
    AnchorView, BLANK_GUARD_HINT,
};
use crate::text::{
    added, blank_text, logical_lines, option_text, option_view, shared_back, shared_front, trimmed,
    trimmed_lines, white_space,
};
use crate::twin::{occurrences, starts};

verus! {

/// The lines without blank ends are a stretch of the lines, and have none.
pub proof fn trimming_takes_blank_ends(lines: Seq<Seq<char>>)
    ensures
        occurs(lines, trimmed_lines(lines)),
        trimmed_lines(lines).len() <= lines.len(),
        trimmed_lines(lines).len() > 0 ==> !blank_text(trimmed_lines(lines)[0]) && !blank_text(
            trimmed_lines(lines).last(),
        ),
    decreases lines.len(),
{
    if lines.len() > 0 && blank_text(lines[0]) {
        let rest = lines.skip(1);
        trimming_takes_blank_ends(rest);
        lemma_occurs_in_part(lines, 1, lines.len() as int, trimmed_lines(lines));
    } else if lines.len() > 0 && blank_text(lines.last()) {
        let rest = lines.drop_last();
        trimming_takes_blank_ends(rest);
        assert(rest == lines.subrange(0, lines.len() - 1));
        lemma_occurs_in_part(lines, 0, lines.len() - 1, trimmed_lines(lines));
    } else {
        assert(lines.subrange(0, lines.len() as int) == lines);
        assert(occurs_at(lines, lines, 0));
    }
}

proof fn lemma_occurs_in_part<T>(hay: Seq<T>, from: int, to: int, needle: Seq<T>)
    requires
        0 <= from <= to <= hay.len(),
        occurs(hay.subrange(from, to), needle),
    ensures
        occurs(hay, needle),
{
    let part = hay.subrange(from, to);
    let at = choose|at: int| occurs_at(part, needle, at);
    assert(part.subrange(at, at + needle.len()) == hay.subrange(
        from + at,
        from + at + needle.len(),
    ));
    assert(occurs_at(hay, needle, from + at));
}

proof fn lemma_shared_front(front: Seq<Seq<char>>, a: Seq<Seq<char>>, b: Seq<Seq<char>>)
    ensures
        shared_front(front + a, front + b) == front.len() + shared_front(a, b),
    decreases front.len(),
{
    if front.len() == 0 {
        assert(front + a == a && front + b == b);
    } else {
        assert((front + a).skip(1) == front.skip(1) + a);
        assert((front + b).skip(1) == front.skip(1) + b);
        lemma_shared_front(front.skip(1), a, b);
    }
}

proof fn lemma_shared_bounds(a: Seq<Seq<char>>, b: Seq<Seq<char>>)
    ensures
        shared_front(a, b) <= a.len(),
        shared_front(a, b) <= b.len(),
        shared_back(a, b) <= a.len(),
        shared_back(a, b) <= b.len(),
    decreases a.len(),
{
    if a.len() > 0 && b.len() > 0 {
        lemma_shared_bounds(a.skip(1), b.skip(1));
        lemma_shared_bounds(a.drop_last(), b.drop_last());
    }
}

proof fn lemma_shared_back(a: Seq<Seq<char>>, b: Seq<Seq<char>>, count: int)
    requires
        0 <= count <= a.len(),
        count <= b.len(),
        forall|i: int| 0 <= i < count ==> #[trigger] a[a.len() - 1 - i] == b[b.len() - 1 - i],
    ensures
        shared_back(a, b) >= count,
    decreases count,
{
    if count > 0 {
        assert(a[a.len() - 1 - 0] == b[b.len() - 1 - 0]);
        let x = a.drop_last();
        let y = b.drop_last();
        assert forall|i: int| 0 <= i < count - 1 implies #[trigger] x[x.len() - 1 - i] == y[y.len()
            - 1 - i] by {
            assert(a[a.len() - 1 - (i + 1)] == b[b.len() - 1 - (i + 1)]);
        }
        lemma_shared_back(x, y, count - 1);
    }
}

/// What an edit adds is a stretch of the new text's lines.
pub proof fn added_lines_are_new_lines(a: Seq<Seq<char>>, b: Seq<Seq<char>>)
    ensures
        occurs(b, added(a, b)),
{
    lemma_shared_bounds(a, b);
    let lead = shared_front(a, b) as int;
    lemma_shared_bounds(a.skip(lead), b.skip(lead));
    let trail = shared_back(a.skip(lead), b.skip(lead)) as int;
    trimming_takes_blank_ends(b.subrange(lead, b.len() - trail));
    lemma_occurs_in_part(b, lead, b.len() - trail, added(a, b));
}

/// Lines that an edit keeps in front of a change and behind it do not count as
/// added: however long they are, no more is added than what is put between.
pub proof fn kept_lines_are_not_added(
    front: Seq<Seq<char>>,
    gone: Seq<Seq<char>>,
    fresh: Seq<Seq<char>>,
    back: Seq<Seq<char>>,
)
    ensures
        added(front + gone + back, front + fresh + back).len() <= fresh.len(),
{
    let a = front + gone + back;
    let b = front + fresh + back;
    let lead = shared_front(a, b) as int;
    assert(a == front + (gone + back) && b == front + (fresh + back));
    lemma_shared_front(front, gone + back, fresh + back);
    lemma_shared_bounds(a, b);
    let u = a.skip(lead);
    let v = b.skip(lead);
    lemma_shared_bounds(u, v);
    let trail = shared_back(u, v) as int;
    let shorter = if u.len() < v.len() {
        u.len() as int
    } else {
        v.len() as int
    };
    let count = if back.len() < shorter {
        back.len() as int
    } else {
        shorter
    };
    assert forall|i: int| 0 <= i < count implies #[trigger] u[u.len() - 1 - i] == v[v.len() - 1
        - i] by {
        assert(u[u.len() - 1 - i] == a[a.len() - 1 - i]);
        assert(v[v.len() - 1 - i] == b[b.len() - 1 - i]);
        assert(a[a.len() - 1 - i] == back[back.len() - 1 - i]);
        assert(b[b.len() - 1 - i] == back[back.len() - 1 - i]);
    }
    lemma_shared_back(u, v, count);
    trimming_takes_blank_ends(b.subrange(lead, b.len() - trail));
}

/// An edit that changes nothing adds nothing.
pub proof fn unchanged_lines_add_nothing(lines: Seq<Seq<char>>)
    ensures
        added(lines, lines).len() == 0,
{
    let none = Seq::<Seq<char>>::empty();
    kept_lines_are_not_added(lines, none, none, none);
    assert(lines + none + none == lines);
}

/// A candidate is large enough for its direction, and has no blank ends.
pub open spec fn worth_a_look(candidate: CandidateView) -> bool {
    &&& candidate.tell == Tell::Insertion ==> candidate.block.len() >= DENY_MIN_LINES
    &&& candidate.tell == Tell::Deletion ==> candidate.block.len() >= DELETE_DENY_MIN_LINES
    &&& !blank_text(candidate.block[0])
    &&& !blank_text(candidate.block.last())
}

/// Every one of the candidates is.
pub open spec fn all_worth_a_look(candidates: Seq<CandidateView>) -> bool {
    forall|i: int| 0 <= i < candidates.len() ==> worth_a_look(#[trigger] candidates[i])
}

proof fn lemma_edited(old_text: Seq<char>, new_text: Seq<char>, file: Option<Seq<char>>)
    ensures
        all_worth_a_look(edited(old_text, new_text, file)),
{
    let a = logical_lines(old_text);
    let b = logical_lines(new_text);
    trimming_takes_blank_ends(a);
    let lead = shared_front(a, b) as int;
    let trail = shared_back(a.skip(lead), b.skip(lead)) as int;
    trimming_takes_blank_ends(b.subrange(lead, b.len() - trail));
}

proof fn lemma_all_edited(edits: Seq<EditInput>, n: int, file: Option<Seq<char>>)
    ensures
        all_worth_a_look(all_edited(edits, n, file)),
    decreases n,
{
    if n > 0 {
        lemma_all_edited(edits, n - 1, file);
        let earlier = all_edited(edits, n - 1, file);
        let last = edited(
            option_text(edits[n - 1].old_string),
            option_text(edits[n - 1].new_string),
            file,
        );
        lemma_edited(
            option_text(edits[n - 1].old_string),
            option_text(edits[n - 1].new_string),
            file,
        );
        let all = all_edited(edits, n, file);
        assert forall|i: int| 0 <= i < all.len() implies worth_a_look(#[trigger] all[i]) by {
            if i < earlier.len() {
                assert(all[i] == earlier[i]);
            } else {
                assert(all[i] == last[i - earlier.len()]);
            }
        }
    }
}

/// No candidate is below the bar for its direction, and every candidate begins
/// and ends with a line that is not blank.
pub proof fn candidates_are_large(tool: Seq<char>, input: ToolInput)
    ensures
        all_worth_a_look(called(tool, input)),
{
    let file = option_view(input.file_path);
    if let Some(content) = input.content {
        trimming_takes_blank_ends(logical_lines(content@));
    }
    lemma_edited(
        option_text(input.old_string),
        option_text(input.new_string),
        file,
    );
    if let Some(edits) = input.edits {
        lemma_all_edited(edits@, edits@.len() as int, file);
    }
}

/// Tools that do not edit make no candidates.
pub proof fn other_tools_make_no_candidates(tool: Seq<char>, input: ToolInput)
    requires
        tool != "Write"@,
        tool != "Edit"@,
        tool != "MultiEdit"@,
    ensures
        called(tool, input).len() == 0,
{
}

/// The places where a block is found are the places where it stands with every
/// line in full, each of them once, from top to bottom.
pub proof fn occurrences_are_verbatim(text: Seq<char>, block: Seq<Seq<char>>, start: int)
    requires
        block.len() > 0,
    ensures
        0 <= start && occurrences(text, block).contains(start as nat) <==> occurs_at(
            logical_lines(text),
            block,
            start - 1,
        ),
        forall|j: int, k: int|
            0 <= j < k < occurrences(text, block).len() ==> occurrences(text, block)[j]
                < occurrences(text, block)[k],
{
    lemma_starts_exact(logical_lines(text), block, logical_lines(text).len() as int, start);
}

proof fn lemma_starts_exact(
    lines: Seq<Seq<char>>,
    block: Seq<Seq<char>>,
    n: int,
    start: int,
)
    ensures
        0 <= start && starts(lines, block, n).contains(start as nat) <==> 1 <= start <= n
            && occurs_at(lines, block, start - 1),
        forall|j: int, k: int|
            0 <= j < k < starts(lines, block, n).len() ==> starts(lines, block, n)[j] < starts(
                lines,
                block,
                n,
            )[k],
        forall|k: int|
            0 <= k < starts(lines, block, n).len() ==> #[trigger] starts(lines, block, n)[k] <= n,
    decreases n,
{
    if n > 0 {
        lemma_starts_exact(lines, block, n - 1, start);
        let earlier = starts(lines, block, n - 1);
        let found = starts(lines, block, n);
        if occurs_at(lines, block, n - 1) {
            assert(found[found.len() - 1] == n);
            if 0 <= start && earlier.contains(start as nat) {
                let k = choose|k: int| 0 <= k < earlier.len() && earlier[k] == start;
                assert(found[k] == start);
            }
            if 0 <= start && found.contains(start as nat) && start != n {
                let k = choose|k: int| 0 <= k < found.len() && found[k] == start;
                assert(earlier[k] == start);
            }
        }
    }
}

/// The largest candidate has at least as many lines as any other.
pub proof fn largest_is_largest(candidates: Seq<CandidateView>, n: int)
    requires
        1 <= n <= candidates.len(),
    ensures
        0 <= largest(candidates, n) < n,
        forall|i: int|
            0 <= i < n ==> (#[trigger] candidates[i]).block.len() <= candidates[largest(
                candidates,
                n,
            )].block.len(),
    decreases n,
{
    if n > 1 {
        largest_is_largest(candidates, n - 1);
    }
}

/// An edit is refused only for a large block: an inserted one that stands
/// somewhere already, or a deleted one that stands in the edited file exactly
/// once.
pub proof fn refusals_have_grounds(
    tool: Seq<char>,
    input: ToolInput,
    scan: Scan,
    read: Option<Option<Seq<char>>>,
)
    requires
        verdict_on(called(tool, input), Some(scan), read) is Deny,
    ensures
        ({
            let all = called(tool, input);
            let candidate = all[largest(all, all.len() as int)];
            &&& candidate.tell == Tell::Insertion ==> candidate.block.len() >= DENY_MIN_LINES
                && scan.twins@.len() > 0
            &&& candidate.tell == Tell::Deletion ==> candidate.block.len() >= DELETE_DENY_MIN_LINES
            &&& candidate.tell == Tell::Deletion ==> match read {
                Some(Some(text)) => occurrences(text, candidate.block).len() == 1,
                _ => false,
            }
        }),
{
    let all = called(tool, input);
    candidates_are_large(tool, input);
    largest_is_largest(all, all.len() as int);
}

/// Nothing of the kind slips through: where the largest candidate is an
/// insertion of a block that stands somewhere, or a deletion of one that stands
/// in the edited file exactly once, the edit is refused.
pub proof fn grounds_bring_refusals(
    candidates: Seq<CandidateView>,
    scan: Scan,
    text: Option<Seq<char>>,
)
    requires
        candidates.len() > 0,
        ({
            let candidate = candidates[largest(candidates, candidates.len() as int)];
            match candidate.tell {
                Tell::Insertion => scan.twins@.len() > 0,
                Tell::Deletion => candidate.file is Some && match text {
                    Some(text) => occurrences(text, candidate.block).len() == 1,
                    None => false,
                },
            }
        }),
    ensures
        verdict_on(candidates, Some(scan), Some(text)) is Deny,
{
}

/// Once the workspace is searched and the file read, the verdict stands: the
/// edit is allowed or refused.
pub proof fn verdict_comes(
    candidates: Seq<CandidateView>,
    scan: Scan,
    text: Option<Seq<char>>,
)
    ensures
        ({
            let verdict = verdict_on(candidates, Some(scan), Some(text));
            verdict is Allow || verdict is Deny
        }),
{
}

proof fn lemma_trimmed_occurs(text: Seq<char>)
    ensures
        occurs(text, trimmed(text)),
    decreases text.len(),
{
    if text.len() > 0 && white_space(text[0]) {
        lemma_trimmed_occurs(text.skip(1));
        assert(text.skip(1) == text.subrange(1, text.len() as int));
        lemma_occurs_in_part(text, 1, text.len() as int, trimmed(text));
    } else if text.len() > 0 && white_space(text.last()) {
        lemma_trimmed_occurs(text.drop_last());
        assert(text.drop_last() == text.subrange(0, text.len() - 1));
        lemma_occurs_in_part(text, 0, text.len() - 1, trimmed(text));
    } else {
        assert(text.subrange(0, text.len() as int) == text);
        assert(occurs_at(text, text, 0));
    }
}

/// A line that is not blank holds the guard that is suggested for it.
pub proof fn guards_stand_in_their_lines(line: Seq<char>)
    requires
        trimmed(line).len() > 0,
    ensures
        guard_of(line).len() > 0,
        holds(line, guard_of(line)),
{
    let text = trimmed(line);
    let guard = guard_of(line);
    lemma_trimmed_occurs(line);
    let at = choose|at: int| occurs_at(line, text, at);
    assert(line.subrange(at, at + guard.len()) == line.subrange(at, at + text.len()).take(
        guard.len() as int,
    ));
    assert(text.take(text.len() as int) == text);
    assert(occurs_at(line, guard, at));
    occurrences_by_byte_are_by_character(line, guard);
}

/// Two anchored lines count as two.
pub proof fn lemma_two_anchored(
    lines: Seq<Seq<char>>,
    guard: Seq<char>,
    context: Option<(int, Seq<char>)>,
    n: int,
    i: int,
    j: int,
)
    requires
        0 <= i < j < n,
        anchored(lines, i, guard, context),
        anchored(lines, j, guard, context),
    ensures
        anchored_count(lines, guard, context, n) >= 2,
    decreases n,
{
    if j < n - 1 {
        lemma_two_anchored(lines, guard, context, n - 1, i, j);
    } else {
        lemma_one_anchored(lines, guard, context, n - 1, i);
    }
}

pub proof fn lemma_one_anchored(
    lines: Seq<Seq<char>>,
    guard: Seq<char>,
    context: Option<(int, Seq<char>)>,
    n: int,
    i: int,
)
    requires
        0 <= i < n,
        anchored(lines, i, guard, context),
    ensures
        anchored_count(lines, guard, context, n) >= 1,
    decreases n,
{
    if i < n - 1 {
        lemma_one_anchored(lines, guard, context, n - 1, i);
    }
}

/// A neighbor anchor as the list that a coordinate takes.
pub open spec fn context_list(context: Option<(int, Seq<char>)>) -> Seq<ContextView> {
    match context {
        Some((offset, guard)) => seq![ContextView { offset, guard }],
        None => seq![],
    }
}

/// The guard, or the guard of the neighbor, ends with a carriage return.
pub open spec fn ends_with_cr(anchor: AnchorView) -> bool {
    ||| anchor.guard.len() > 0 && anchor.guard.last() == '\r'
    ||| anchor.context matches Some((offset, guard)) && guard.len() > 0 && guard.last() == '\r'
}

proof fn lemma_satisfied(text: Seq<char>, num: int, anchor: AnchorView)
    requires
        anchor.guard.len() > 0,
        anchor.context matches Some((offset, guard)) ==> guard.len() > 0,
        text.len() > 0 && text.last() == '\r' ==> !ends_with_cr(anchor),
    ensures
        satisfied(
            split_lines(encode_utf8(text)),
            num,
            anchor.guard,
            context_list(anchor.context),
        ) <==> 1 <= num <= logical_lines(text).len() && anchored(
            logical_lines(text),
            num - 1,
            anchor.guard,
            anchor.context,
        ),
{
    let rows = split_lines(encode_utf8(text));
    let context = context_list(anchor.context);
    guards_by_byte_are_by_character(text, num, anchor.guard);
    if let Some((offset, guard)) = anchor.context {
        guards_by_byte_are_by_character(text, num + offset, guard);
        assert(context[0] == (ContextView { offset, guard }));
        assert(bears(rows, num + context[0].offset, context[0].guard) == bears(
            rows,
            num + offset,
            guard,
        ));
    }
}

/// The nearest neighbor that is found is decisive, and none is overlooked.
pub proof fn nearest_is_decisive(
    lines: Seq<Seq<char>>,
    at: int,
    guard: Seq<char>,
    dir: int,
    m: int,
    limit: int,
)
    requires
        dir != 0,
        0 <= m,
    ensures
        match nearest(lines, at, guard, dir, m, limit) {
            Some(offset) => {
                &&& offset != 0
                &&& -limit <= offset <= limit
                &&& decisive(lines, at, guard, offset)
            },
            None => forall|k: int|
                m < k <= limit ==> !#[trigger] decisive(lines, at, guard, k) && !decisive(
                    lines,
                    at,
                    guard,
                    -k,
                ),
        },
    decreases limit - m,
{
    if m < limit {
        nearest_is_decisive(lines, at, guard, dir, m + 1, limit);
    }
}

/// An anchor was found that is unique: the guard by itself, or with its
/// neighbor.
pub open spec fn unique_in(lines: Seq<Seq<char>>, anchor: AnchorView) -> bool {
    &&& anchor.guard != BLANK_GUARD_HINT@
    &&& anchor.context is Some || anchored_count(lines, anchor.guard, None, lines.len() as int)
        <= 1
}

/// Where an anchor was found that is unique, the coordinate made of it resolves
/// to the line it was made for, with that line's number and without. Left out
/// are guards that end with a carriage return in a text that does.
pub proof fn suggested_anchors_resolve(
    text: Seq<char>,
    at: int,
    dir: int,
    path: Seq<char>,
    role: Role,
)
    requires
        0 <= at < logical_lines(text).len(),
        dir != 0,
        unique_in(logical_lines(text), anchor_of(logical_lines(text), at, dir)),
        text.len() > 0 && text.last() == '\r' ==> !ends_with_cr(
            anchor_of(logical_lines(text), at, dir),
        ),
    ensures
        ({
            let anchor = anchor_of(logical_lines(text), at, dir);
            let rows = split_lines(encode_utf8(text));
            let context = context_list(anchor.context);
            let line = (at + 1) as nat;
            &&& resolution(rows, path, role, Some(line), anchor.guard, context) == Ok::<
                nat,
                ErrorView,
            >(line)
            &&& resolution(rows, path, role, None, anchor.guard, context) == Ok::<nat, ErrorView>(
                line,
            )
        }),
{
    let lines = logical_lines(text);
    let anchor = anchor_of(lines, at, dir);
    let rows = split_lines(encode_utf8(text));
    let context = context_list(anchor.context);
    let n = lines.len() as int;
    guards_stand_in_their_lines(lines[at]);
    if anchor.context is Some {
        let offset = nearest(lines, at, anchor.guard, dir, 0, reach(lines))->0;
        nearest_is_decisive(lines, at, anchor.guard, dir, 0, reach(lines));
        assert(anchor.context == neighbor(lines, at, offset));
        guards_stand_in_their_lines(lines[at + offset]);
    }
    assert(anchored(lines, at, anchor.guard, anchor.context));
    assert(anchored_count(lines, anchor.guard, anchor.context, n) <= 1);
    lemma_satisfied(text, at + 1, anchor);
    assert forall|other: int|
        1 <= other <= rows.len() && #[trigger] satisfied(
            rows,
            other,
            anchor.guard,
            context,
        ) implies other == at + 1 by {
        lemma_satisfied(text, other, anchor);
        if other - 1 < at {
            lemma_two_anchored(lines, anchor.guard, anchor.context, n, other - 1, at);
        } else if other - 1 > at {
            lemma_two_anchored(lines, anchor.guard, anchor.context, n, at, other - 1);
        }
    }
    assert(only_match(rows, at + 1, anchor.guard, context));
    resolves_to_the_only_match(
        rows,
        path,
        role,
        Some((at + 1) as nat),
        anchor.guard,
        context,
        (at + 1) as nat,
    );
    resolves_to_the_only_match(
        rows,
        path,
        role,
        None,
        anchor.guard,
        context,
        (at + 1) as nat,
    );
}

/// Where a neighbor within reach makes the guard unique, one is found.
pub proof fn neighbors_are_found(lines: Seq<Seq<char>>, at: int, dir: int, offset: int)
    requires
        0 <= at < lines.len(),
        dir != 0,
        guard_of(lines[at]) != BLANK_GUARD_HINT@,
        offset != 0,
        -reach(lines) <= offset <= reach(lines),
        decisive(lines, at, guard_of(lines[at]), offset),
    ensures
        unique_in(lines, anchor_of(lines, at, dir)),
{
    let guard = guard_of(lines[at]);
    nearest_is_decisive(lines, at, guard, dir, 0, reach(lines));
    if nearest(lines, at, guard, dir, 0, reach(lines)) is None {
        let k = if offset < 0 {
            -offset
        } else {
            offset
        };
        assert(!decisive(lines, at, guard, k));
        assert(!decisive(lines, at, guard, -k));
        assert(offset == k || offset == -k);
    }
    let anchor = anchor_of(lines, at, dir);
    assert(anchor.guard == guard);
    if anchored_count(lines, guard, None, lines.len() as int) > 1 {
        assert(nearest(lines, at, guard, dir, 0, reach(lines)) is Some);
        assert(anchor.context is Some);
    }
}

} // verus!
