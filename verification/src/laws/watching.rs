//! The hook: which blocks it looks at in a call, and what it answers.

use vstd::prelude::*;

use crate::candidate::{all_edited, called, CandidateView, EditInput, Tell, ToolInput};
use crate::hook::{first_elsewhere, largest, origin, verdict_on, Scan, VerdictView};
use crate::laws::advice::occurrences_are_verbatim;
use crate::laws::advising::{
    advises_deleting, advises_moving, deletions_are_answered_with_two_commands,
    insertions_are_answered_with_a_command,
};
use crate::laws::vocabulary::{
    added_lines_lie_between_shared_ends, bare_lines, shared_ends, shared_ends_are_unique,
    trimming_takes_blank_lines,
};
use crate::outside::nested_object_text;
use crate::search::occurs_at;
use crate::suggest::{deletion_reason, insertion_reason, sole_occurrence, Twin};
use crate::text::{added, blank_text, logical_lines, trimmed_lines};
use crate::twin::{hits_in, occurrences, visit_of, Entry, Visit};

verus! {

/// The characters of a text that may be absent; then there are none.
pub open spec fn given(text: Option<String>) -> Seq<char> {
    match text {
        Some(text) => text@,
        None => seq![],
    }
}

/// The characters of a text that may be absent.
pub open spec fn named(text: Option<String>) -> Option<Seq<char>> {
    match text {
        Some(text) => Some(text@),
        None => None,
    }
}

/// The block is what is left of the lines without the blank ones at their ends.
pub open spec fn is_left(lines: Seq<Seq<char>>, block: Seq<Seq<char>>) -> bool {
    exists|i: int, j: int| #[trigger] bare_lines(lines, block, i, j)
}

/// The block is what the lines `after` have and the lines `before` have not:
/// without the longest run that they share at the front and, of what is left, at
/// the back, and without the blank lines at its ends.
pub open spec fn is_fresh(
    before: Seq<Seq<char>>,
    after: Seq<Seq<char>>,
    block: Seq<Seq<char>>,
) -> bool {
    exists|lead: int, trail: int|
        #[trigger] shared_ends(before, after, lead, trail) && is_left(
            after.subrange(lead, after.len() - trail),
            block,
        )
}

proof fn lemma_left(lines: Seq<Seq<char>>, block: Seq<Seq<char>>)
    requires
        is_left(lines, block),
    ensures
        block == trimmed_lines(lines),
{
    trimming_takes_blank_lines(lines);
    let part = trimmed_lines(lines);
    let (i, j) = choose|i: int, j: int| #[trigger] bare_lines(lines, block, i, j);
    let (k, l) = choose|i: int, j: int| #[trigger] bare_lines(lines, part, i, j);
    if i < j {
        assert(!blank_text(lines[i]));
        assert(!blank_text(lines[j - 1]));
    }
    if k < l {
        assert(!blank_text(lines[k]));
        assert(!blank_text(lines[l - 1]));
    }
    if i < j && k < l {
        assert(i == k && j == l);
    } else {
        assert(block =~= part);
    }
}

proof fn lemma_fresh(before: Seq<Seq<char>>, after: Seq<Seq<char>>, block: Seq<Seq<char>>)
    requires
        is_fresh(before, after, block),
    ensures
        block == added(before, after),
{
    added_lines_lie_between_shared_ends(before, after);
    let (lead, trail) = choose|lead: int, trail: int|
        #[trigger] shared_ends(before, after, lead, trail) && added(before, after)
            == trimmed_lines(after.subrange(lead, after.len() - trail));
    let (front, back) = choose|lead: int, trail: int|
        #[trigger] shared_ends(before, after, lead, trail) && is_left(
            after.subrange(lead, after.len() - trail),
            block,
        );
    shared_ends_are_unique(before, after, lead, trail, front, back);
    lemma_left(after.subrange(front, after.len() - back), block);
}

/// Some block is what one text has and the other has not, and it is the only
/// one.
pub proof fn something_is_fresh(before: Seq<Seq<char>>, after: Seq<Seq<char>>)
    ensures
        exists|block: Seq<Seq<char>>| is_fresh(before, after, block),
        forall|a: Seq<Seq<char>>, b: Seq<Seq<char>>|
            is_fresh(before, after, a) && is_fresh(before, after, b) ==> a == b,
{
    added_lines_lie_between_shared_ends(before, after);
    let (lead, trail) = choose|lead: int, trail: int|
        #[trigger] shared_ends(before, after, lead, trail) && added(before, after)
            == trimmed_lines(after.subrange(lead, after.len() - trail));
    trimming_takes_blank_lines(after.subrange(lead, after.len() - trail));
    assert(is_left(after.subrange(lead, after.len() - trail), added(before, after)));
    assert(is_fresh(before, after, added(before, after)));
    assert forall|a: Seq<Seq<char>>, b: Seq<Seq<char>>|
        is_fresh(before, after, a) && is_fresh(before, after, b) implies a == b by {
        lemma_fresh(before, after, a);
        lemma_fresh(before, after, b);
    }
}

/// The one candidate with this block, or none where it has too few lines.
pub open spec fn alone(
    block: Seq<Seq<char>>,
    enough: nat,
    tell: Tell,
    file: Option<Seq<char>>,
) -> Seq<CandidateView> {
    if block.len() >= enough {
        seq![CandidateView { block, tell, file }]
    } else {
        Seq::empty()
    }
}

/// An edit that puts something in place of a text is looked at for what it adds:
/// where that has five lines or more, it is the one candidate, and else there is
/// none.
pub proof fn edits_are_looked_at_for_what_they_add(input: ToolInput, block: Seq<Seq<char>>)
    requires
        given(input.new_string).len() > 0,
        is_fresh(
            logical_lines(given(input.old_string)),
            logical_lines(given(input.new_string)),
            block,
        ),
    ensures
        called("Edit"@, input) == alone(block, 5, Tell::Insertion, named(input.file_path)),
{
    lemma_tools();
    lemma_fresh(
        logical_lines(given(input.old_string)),
        logical_lines(given(input.new_string)),
        block,
    );
}

/// An edit that puts nothing in place of a text is looked at for what it takes:
/// where that has ten lines or more, it is the one candidate, and else there is
/// none.
pub proof fn edits_are_looked_at_for_what_they_take(input: ToolInput, block: Seq<Seq<char>>)
    requires
        given(input.new_string).len() == 0,
        is_left(logical_lines(given(input.old_string)), block),
    ensures
        called("Edit"@, input) == alone(block, 10, Tell::Deletion, named(input.file_path)),
{
    lemma_tools();
    lemma_left(logical_lines(given(input.old_string)), block);
}

/// A file that is written is looked at as a whole: where its lines, blank ends
/// left out, are five or more, they are the one candidate, and else there is
/// none.
pub proof fn writes_are_looked_at_as_a_whole(input: ToolInput, block: Seq<Seq<char>>)
    requires
        input.content is Some,
        is_left(logical_lines(given(input.content)), block),
    ensures
        called("Write"@, input) == alone(block, 5, Tell::Insertion, named(input.file_path)),
{
    lemma_left(logical_lines(given(input.content)), block);
}

proof fn lemma_tools()
    ensures
        "Write"@ != "Edit"@,
        "Write"@ != "MultiEdit"@,
        "Edit"@ != "MultiEdit"@,
{
    reveal_strlit("Write");
    reveal_strlit("Edit");
    reveal_strlit("MultiEdit");
    assert("Write"@.len() == 5);
    assert("Edit"@.len() == 4);
    assert("MultiEdit"@.len() == 9);
}

/// Several edits at once are looked at one by one: another edit behind them adds
/// the candidates that it makes by itself. No edits make no candidates.
pub proof fn several_edits_are_looked_at_one_by_one(
    more: ToolInput,
    fewer: ToolInput,
    single: ToolInput,
    edits: Seq<EditInput>,
    edit: EditInput,
)
    requires
        fewer.edits matches Some(list) && list@ == edits,
        more.edits matches Some(list) && list@ == edits.push(edit),
        single.old_string == edit.old_string,
        single.new_string == edit.new_string,
        more.file_path == fewer.file_path,
        more.file_path == single.file_path,
    ensures
        called("MultiEdit"@, more) == called("MultiEdit"@, fewer) + called("Edit"@, single),
        edits.len() == 0 ==> called("MultiEdit"@, fewer).len() == 0,
{
    lemma_tools();
    let file = named(more.file_path);
    let n = edits.len() as int;
    lemma_same_edits(edits.push(edit), edits, n, file);
    assert(edits.push(edit)[n] == edit);
}

proof fn lemma_same_edits(a: Seq<EditInput>, b: Seq<EditInput>, n: int, file: Option<Seq<char>>)
    requires
        n <= a.len(),
        n <= b.len(),
        forall|i: int| 0 <= i < n ==> a[i] == b[i],
    ensures
        all_edited(a, n, file) == all_edited(b, n, file),
    decreases n,
{
    if n > 0 {
        lemma_same_edits(a, b, n - 1, file);
    }
}

/// A call without the text to write, or without the list of edits, makes no
/// candidates.
pub proof fn calls_without_text_make_no_candidates(input: ToolInput)
    ensures
        input.content is None ==> called("Write"@, input).len() == 0,
        input.edits is None ==> called("MultiEdit"@, input).len() == 0,
{
    lemma_tools();
}

/// An edit that adds a block of five lines or more that stands somewhere in the
/// workspace is refused.
pub proof fn edits_that_add_what_exists_are_refused(
    input: ToolInput,
    block: Seq<Seq<char>>,
    scan: Scan,
    text: Option<Seq<char>>,
)
    requires
        given(input.new_string).len() > 0,
        is_fresh(
            logical_lines(given(input.old_string)),
            logical_lines(given(input.new_string)),
            block,
        ),
        block.len() >= 5,
        scan.twins@.len() > 0,
    ensures
        verdict_on(called("Edit"@, input), Some(scan), Some(text)) is Deny,
{
    edits_are_looked_at_for_what_they_add(input, block);
}

/// So is a file that is written with nothing but such a block.
pub proof fn files_written_with_what_exists_are_refused(
    input: ToolInput,
    block: Seq<Seq<char>>,
    scan: Scan,
    text: Option<Seq<char>>,
)
    requires
        input.content is Some,
        is_left(logical_lines(given(input.content)), block),
        block.len() >= 5,
        scan.twins@.len() > 0,
    ensures
        verdict_on(called("Write"@, input), Some(scan), Some(text)) is Deny,
{
    writes_are_looked_at_as_a_whole(input, block);
}

/// No candidate has more lines than that at index `at`, and none behind it has
/// as many.
pub open spec fn is_largest(candidates: Seq<CandidateView>, at: int) -> bool {
    &&& 0 <= at < candidates.len()
    &&& forall|i: int|
        0 <= i < candidates.len() ==> (#[trigger] candidates[i]).block.len()
            <= candidates[at].block.len()
    &&& forall|i: int|
        at < i < candidates.len() ==> (#[trigger] candidates[i]).block.len()
            < candidates[at].block.len()
}

proof fn lemma_largest(candidates: Seq<CandidateView>, n: int)
    requires
        1 <= n <= candidates.len(),
    ensures
        is_largest(candidates.take(n), largest(candidates, n)),
    decreases n,
{
    if n > 1 {
        lemma_largest(candidates, n - 1);
        let earlier = candidates.take(n - 1);
        let all = candidates.take(n);
        let at = largest(candidates, n - 1);
        assert forall|i: int| 0 <= i < n - 1 implies #[trigger] all[i] == earlier[i] by {}
        assert(earlier[at] == candidates[at]);
        assert(all[at] == earlier[at]);
        assert forall|i: int| 0 <= i < n implies (#[trigger] all[i]).block.len()
            <= all[largest(candidates, n)].block.len() by {
            if i < n - 1 {
                assert(all[i] == earlier[i]);
            }
        }
        assert forall|i: int| largest(candidates, n) < i < n implies (#[trigger] all[i]).block.len()
            < all[largest(candidates, n)].block.len() by {
            if i < n - 1 {
                assert(all[i] == earlier[i]);
            }
        }
    }
}

/// A call without candidates is allowed. For others the workspace is searched
/// for the largest, the last of several.
pub proof fn the_largest_candidate_is_searched_for(
    candidates: Seq<CandidateView>,
    read: Option<Option<Seq<char>>>,
    at: int,
)
    ensures
        candidates.len() == 0 ==> forall|scan: Option<Scan>|
            verdict_on(candidates, scan, read) == VerdictView::Allow,
        candidates.len() > 0 ==> (verdict_on(candidates, None, read) == VerdictView::Search(at)
            <==> is_largest(candidates, at)),
{
    if candidates.len() > 0 {
        lemma_same_largest(candidates, at);
    }
}

proof fn lemma_same_largest(candidates: Seq<CandidateView>, at: int)
    requires
        candidates.len() > 0,
    ensures
        is_largest(candidates, at) <==> at == largest(candidates, candidates.len() as int),
{
    let n = candidates.len() as int;
    lemma_largest(candidates, n);
    assert(candidates.take(n) == candidates);
    let found = largest(candidates, n);
    if is_largest(candidates, at) {
        assert(candidates[at].block.len() <= candidates[found].block.len());
        assert(candidates[found].block.len() <= candidates[at].block.len());
    }
}

/// The occurrence at index `at` is the first that is not in the edited file, or
/// the first of all where there is no such.
pub open spec fn is_origin(twins: Seq<Twin>, at: int) -> bool {
    &&& 0 <= at < twins.len()
    &&& forall|i: int| 0 <= i < at ==> (#[trigger] twins[i]).edited
    &&& twins[at].edited ==> at == 0 && forall|i: int|
        0 <= i < twins.len() ==> (#[trigger] twins[i]).edited
}

proof fn lemma_elsewhere(twins: Seq<Twin>, from: int)
    requires
        0 <= from <= twins.len(),
    ensures
        match first_elsewhere(twins, from) {
            Some(at) => from <= at < twins.len() && !twins[at].edited && forall|i: int|
                from <= i < at ==> (#[trigger] twins[i]).edited,
            None => forall|i: int| from <= i < twins.len() ==> (#[trigger] twins[i]).edited,
        },
    decreases twins.len() - from,
{
    if from < twins.len() {
        lemma_elsewhere(twins, from + 1);
    }
}

proof fn lemma_origin(twins: Seq<Twin>, at: int)
    requires
        is_origin(twins, at),
    ensures
        origin(twins) == at,
{
    lemma_elsewhere(twins, 0);
}

/// The reply refuses the call, for the given reason.
pub open spec fn refuses(reply: Seq<char>, reason: Seq<char>) -> bool {
    reply == nested_object_text(
        "hookSpecificOutput"@,
        seq![
            ("hookEventName"@, "PreToolUse"@),
            ("permissionDecision"@, "deny"@),
            ("permissionDecisionReason"@, reason),
        ],
    )
}

/// An insertion is allowed where its block stands nowhere. Else the file of the
/// first occurrence is read that is not in the edited file, and then the call is
/// refused, with a command that moves the block from there.
pub proof fn insertions_of_what_exists_are_refused(
    candidates: Seq<CandidateView>,
    at: int,
    scan: Scan,
    text: Option<Seq<char>>,
    k: int,
)
    requires
        is_largest(candidates, at),
        candidates[at].tell == Tell::Insertion,
        scan.twins@.len() > 0 ==> is_origin(scan.twins@, k),
    ensures
        scan.twins@.len() == 0 ==> forall|read: Option<Option<Seq<char>>>|
            verdict_on(candidates, Some(scan), read) == VerdictView::Allow,
        scan.twins@.len() > 0 ==> verdict_on(candidates, Some(scan), None)
            == VerdictView::ReadTwin(k),
        scan.twins@.len() > 0 ==> {
            let twin = scan.twins@[k];
            verdict_on(candidates, Some(scan), Some(text)) matches VerdictView::Deny(reply)
                && exists|reason: Seq<char>| #[trigger]
                refuses(reply, reason) && advises_moving(
                    reason,
                    candidates[at].block,
                    twin.path@,
                    twin.start as int,
                    text,
                    if candidates[at].file is None || twin.edited {
                        None
                    } else {
                        Some(scan.edited@)
                    },
                )
        },
{
    lemma_same_largest(candidates, at);
    if scan.twins@.len() > 0 {
        lemma_origin(scan.twins@, k);
        let twin = scan.twins@[k];
        let dest = if candidates[at].file is None || twin.edited {
            None
        } else {
            Some(scan.edited@)
        };
        let reason = insertion_reason(
            candidates[at].block,
            twin.path@,
            twin.start as nat,
            text,
            dest,
        );
        insertions_are_answered_with_a_command(
            candidates[at].block,
            twin.path@,
            twin.start as nat,
            text,
            dest,
        );
        assert(verdict_on(candidates, Some(scan), Some(text)) is Deny);
        let reply = verdict_on(candidates, Some(scan), Some(text))->Deny_0;
        assert(refuses(reply, reason));
    }
}

/// The block stands in the text from line `start` on, counted from one, and
/// nowhere else.
pub open spec fn stands_once(text: Seq<char>, block: Seq<Seq<char>>, start: int) -> bool {
    &&& occurs_at(logical_lines(text), block, start - 1)
    &&& forall|other: int|
        #[trigger] occurs_at(logical_lines(text), block, other) ==> other == start - 1
}

proof fn lemma_sole(text: Seq<char>, block: Seq<Seq<char>>)
    requires
        block.len() > 0,
    ensures
        match sole_occurrence(text, block) {
            Some(start) => stands_once(text, block, start as int),
            None => forall|start: int| !stands_once(text, block, start),
        },
{
    let found = occurrences(text, block);
    occurrences_are_verbatim(text, block, 0);
    if found.len() == 1 {
        let start = found[0] as int;
        assert(found.contains(start as nat));
        occurrences_are_verbatim(text, block, start);
        assert forall|other: int|
            #[trigger] occurs_at(logical_lines(text), block, other) implies other == start - 1 by {
            occurrences_are_verbatim(text, block, other + 1);
        }
    } else {
        assert forall|start: int| !stands_once(text, block, start) by {
            if stands_once(text, block, start) {
                occurrences_are_verbatim(text, block, start);
                if found.len() > 1 {
                    assert(found.contains(found[0]));
                    assert(found.contains(found[1]));
                    occurrences_are_verbatim(text, block, found[0] as int);
                    occurrences_are_verbatim(text, block, found[1] as int);
                    assert(found[0] < found[1]);
                }
            }
        }
    }
}

/// A deletion is allowed where it names no file, or one that cannot be read or
/// does not hold the block in exactly one place. Else the call is refused, with
/// one command that moves the block from that place and one that deletes it.
pub proof fn deletions_of_one_place_are_refused(
    candidates: Seq<CandidateView>,
    at: int,
    scan: Scan,
    text: Seq<char>,
    k: int,
)
    requires
        is_largest(candidates, at),
        candidates[at].tell == Tell::Deletion,
        candidates[at].block.len() > 0,
        scan.twins@.len() > 0 ==> is_origin(scan.twins@, k),
    ensures
        candidates[at].file is None ==> forall|read: Option<Option<Seq<char>>>|
            verdict_on(candidates, Some(scan), read) == VerdictView::Allow,
        candidates[at].file is Some ==> {
            let block = candidates[at].block;
            let verdict = verdict_on(candidates, Some(scan), Some(Some(text)));
            let elsewhere = if scan.twins@.len() > 0 && !scan.twins@[k].edited {
                Some(scan.twins@[k].path@)
            } else {
                None
            };
            &&& verdict_on(candidates, Some(scan), None) == VerdictView::ReadEdited(at)
            &&& verdict_on(candidates, Some(scan), Some(None)) == VerdictView::Allow
            &&& (forall|start: int| !stands_once(text, block, start)) ==> verdict
                == VerdictView::Allow
            &&& forall|start: int| #[trigger]
                stands_once(text, block, start) ==> verdict is Deny && exists|
                    reason: Seq<char>,
                | #[trigger]
                    refuses(verdict->Deny_0, reason) && advises_deleting(
                        reason,
                        block,
                        scan.edited@,
                        start,
                        text,
                        elsewhere,
                    )
        },
{
    lemma_same_largest(candidates, at);
    lemma_elsewhere(scan.twins@, 0);
    if scan.twins@.len() > 0 {
        lemma_origin(scan.twins@, k);
    }
    let block = candidates[at].block;
    let elsewhere = if scan.twins@.len() > 0 && !scan.twins@[k].edited {
        Some(scan.twins@[k].path@)
    } else {
        None
    };
    lemma_sole(text, block);
    if candidates[at].file is Some {
        let verdict = verdict_on(candidates, Some(scan), Some(Some(text)));
        assert forall|start: int| #[trigger] stands_once(text, block, start) implies verdict is Deny
            && exists|reason: Seq<char>| #[trigger]
            refuses(verdict->Deny_0, reason) && advises_deleting(
                reason,
                block,
                scan.edited@,
                start,
                text,
                elsewhere,
            ) by {
            let found = sole_occurrence(text, block)->0;
            assert(occurs_at(logical_lines(text), block, found - 1));
            let reason = deletion_reason(block, scan.edited@, found, text, elsewhere);
            deletions_are_answered_with_two_commands(block, scan.edited@, found, text, elsewhere);
            assert(refuses(verdict->Deny_0, reason));
        }
    }
}

/// A directory is searched unless it is hidden or holds what was built or
/// fetched, and a file unless it is larger than two mebibytes or of unknown
/// size. Nothing else is.
pub proof fn ordinary_files_are_searched(entry: Entry)
    ensures
        visit_of(entry) == Visit::Enter <==> match entry {
            Entry::Dir(Some(name)) => !(name@.len() > 0 && name@[0] == '.') && name@ != "target"@
                && name@ != "node_modules"@,
            Entry::Dir(None) => true,
            _ => false,
        },
        visit_of(entry) == Visit::Search <==> (entry matches Entry::File(Some(size)) && size
            <= 2 * 1024 * 1024),
{
    reveal_strlit(".git");
    assert(".git"@[0] == '.');
}

/// An occurrence is reported with the path that was searched and the line at
/// which the block stands; every one is, from top to bottom.
pub proof fn occurrences_are_reported(path: Seq<char>, text: Seq<char>, block: Seq<Seq<char>>)
    requires
        block.len() > 0,
    ensures
        forall|k: int|
            0 <= k < hits_in(path, text, block).len() ==> (#[trigger] hits_in(
                path,
                text,
                block,
            )[k]).0 == path && occurs_at(
                logical_lines(text),
                block,
                hits_in(path, text, block)[k].1 - 1,
            ),
        forall|start: int| #[trigger]
            occurs_at(logical_lines(text), block, start - 1) ==> hits_in(
                path,
                text,
                block,
            ).contains((path, start as nat)),
        forall|j: int, k: int|
            0 <= j < k < hits_in(path, text, block).len() ==> (#[trigger] hits_in(
                path,
                text,
                block,
            )[j]).1 < (#[trigger] hits_in(path, text, block)[k]).1,
{
    let found = occurrences(text, block);
    let hits = hits_in(path, text, block);
    occurrences_are_verbatim(text, block, 0);
    assert forall|k: int| 0 <= k < hits.len() implies (#[trigger] hits[k]).0 == path && occurs_at(
        logical_lines(text),
        block,
        hits[k].1 - 1,
    ) by {
        assert(found.contains(found[k]));
        occurrences_are_verbatim(text, block, found[k] as int);
    }
    assert forall|start: int| #[trigger]
        occurs_at(logical_lines(text), block, start - 1) implies hits.contains(
        (path, start as nat),
    ) by {
        occurrences_are_verbatim(text, block, start);
        let k = choose|k: int| 0 <= k < found.len() && found[k] == start as nat;
        assert(hits[k] == (path, start as nat));
    }
}

/// An empty block stands nowhere.
pub proof fn empty_blocks_stand_nowhere(path: Seq<char>, text: Seq<char>)
    ensures
        hits_in(path, text, Seq::empty()).len() == 0,
{
}

} // verus!
