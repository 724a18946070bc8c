//! What errors say: every part of the trouble, and an exit code for its kind.

use vstd::prelude::*;

use crate::error::{
    candidate_rows, clipped_text, consolidated_text, exit_code, failure_count, message_text,
    outcome_part, outcome_rows, quoted_parts, report_quoting, ErrorView, OutcomeView, Role,
};
use crate::laws::answering::failed;
use crate::laws::vocabulary::occurrences_have_two_sides;
use crate::numeral::decimal_text;
use crate::outside::quoted_text;
use crate::search::occurs;

verus! {

/// The exit code is two for flags that do not go together, three for trouble
/// with a file, and one for everything else.
pub proof fn exit_codes_go_by_kind(error: ErrorView)
    ensures
        exit_code(error) == 2 <==> error is Usage,
        exit_code(error) == 3 <==> error is Io || error is FileMissing,
        1 <= exit_code(error) <= 3,
{
}

/// The name of a coordinate in its flags.
pub open spec fn role_name(role: Role) -> Seq<char> {
    match role {
        Role::From => "from"@,
        Role::To => "to"@,
        Role::Dest => "dest"@,
    }
}

/// The text as it is listed is the text itself up to sixty characters, and of a
/// longer one the first sixty and an ellipsis.
pub proof fn listed_texts_are_cut(text: Seq<char>)
    ensures
        text.len() <= 60 ==> clipped_text(text) == text,
        text.len() > 60 ==> clipped_text(text) == text.take(60).push('…'),
{
    reveal_strlit("…");
    assert("…"@ =~= seq!['…']);
    assert(text.take(60) + seq!['…'] =~= text.take(60).push('…'));
}

/// The lines that an anchor could mean, one row for each, in their order.
pub open spec fn listing(indent: Seq<char>, matches: Seq<(nat, Seq<char>)>) -> Seq<char>
    decreases matches.len(),
{
    if matches.len() == 0 {
        Seq::empty()
    } else {
        indent + decimal_text(matches[0].0) + "\t"@ + clipped_text(matches[0].1) + "\n"@ + listing(
            indent,
            matches.skip(1),
        )
    }
}

proof fn lemma_listing_end(indent: Seq<char>, matches: Seq<(nat, Seq<char>)>)
    requires
        matches.len() > 0,
    ensures
        listing(indent, matches) == listing(indent, matches.drop_last()) + (indent + decimal_text(
            matches.last().0,
        ) + "\t"@ + clipped_text(matches.last().1) + "\n"@),
    decreases matches.len(),
{
    let row = indent + decimal_text(matches[0].0) + "\t"@ + clipped_text(matches[0].1) + "\n"@;
    let last = indent + decimal_text(matches.last().0) + "\t"@ + clipped_text(matches.last().1)
        + "\n"@;
    if matches.len() == 1 {
        assert(matches.skip(1).len() == 0);
        assert(listing(indent, matches.skip(1)) == Seq::<char>::empty());
        assert(listing(indent, matches.drop_last()) == Seq::<char>::empty());
        assert(row + Seq::<char>::empty() =~= Seq::<char>::empty() + last);
    } else {
        let rest = matches.skip(1);
        lemma_listing_end(indent, rest);
        assert(rest.drop_last() == matches.drop_last().skip(1));
        assert(rest.last() == matches.last());
        assert(matches.drop_last()[0] == matches[0]);
        let middle = listing(indent, rest.drop_last());
        assert(row + (middle + last) =~= row + middle + last);
    }
}

proof fn lemma_candidate_rows(
    head: Seq<char>,
    indent: Seq<char>,
    matches: Seq<(nat, Seq<char>)>,
    n: int,
)
    requires
        0 <= n <= matches.len(),
    ensures
        candidate_rows(head, indent, matches, n) == head + listing(indent, matches.take(n)),
    decreases n,
{
    if n == 0 {
        assert(matches.take(0).len() == 0);
        assert(head + listing(indent, matches.take(0)) =~= head);
    } else {
        lemma_candidate_rows(head, indent, matches, n - 1);
        let part = matches.take(n);
        lemma_listing_end(indent, part);
        assert(part.drop_last() == matches.take(n - 1));
        assert(part.last() == matches[n - 1]);
        lemma_row_behind(
            head,
            listing(indent, part.drop_last()),
            indent,
            decimal_text(part.last().0),
            "\t"@,
            clipped_text(part.last().1),
            "\n"@,
        );
    }
}

proof fn lemma_row_behind(
    head: Seq<char>,
    list: Seq<char>,
    a: Seq<char>,
    b: Seq<char>,
    c: Seq<char>,
    d: Seq<char>,
    e: Seq<char>,
)
    ensures
        head + list + a + b + c + d + e == head + (list + (a + b + c + d + e)),
{
    assert(head + list + a + b + c + d + e =~= head + (list + (a + b + c + d + e)));
}

/// The message starts with the word for the error and names the coordinate, the
/// guard in quotation marks, the file and the numbers that it is about, each in
/// its place. Where several lines fit, every one is listed; where the anchor was
/// found on another line, that is the line to retry with.
pub open spec fn says(message: Seq<char>, error: ErrorView) -> bool {
    match error {
        ErrorView::GuardNotFound { role, guard, path } => {
            &&& occurs(
                message,
                "error: guard-not-found: --"@ + role_name(role) + "-guard "@ + quoted_text(guard),
            )
            &&& occurs(message, " not found in "@ + path)
        },
        ErrorView::Ambiguous { role, guard, matches, path } => {
            &&& occurs(
                message,
                "error: ambiguous-anchor: --"@ + role_name(role) + "-guard "@ + quoted_text(guard)
                    + " matches "@ + decimal_text(matches.len()) + " lines in "@ + path + ":\n"@
                    + listing("   "@, matches),
            )
            &&& occurs(message, "  hint: add --"@ + role_name(role))
        },
        ErrorView::Drift { role, guard, addressed, actual } => {
            &&& occurs(
                message,
                "error: drift: --"@ + role_name(role) + " anchor "@ + quoted_text(guard)
                    + " resolved at line "@ + decimal_text(actual),
            )
            &&& occurs(message, ", not "@ + decimal_text(addressed))
            &&& occurs(
                message,
                "; retry with --"@ + role_name(role) + " "@ + decimal_text(actual),
            )
        },
        ErrorView::OutOfRange { role, line, count, path } => occurs(
            message,
            "error: out-of-range: --"@ + role_name(role) + " "@ + decimal_text(line)
                + " is outside [1, "@ + decimal_text(count) + "] in "@ + path,
        ),
        ErrorView::DestInSpan { dest, from, to } => occurs(
            message,
            "error: dest-in-span: --dest "@ + decimal_text(dest) + " lies within ["@ + decimal_text(
                from,
            ) + ", "@ + decimal_text(to),
        ),
        ErrorView::FromAfterTo { from, to } => occurs(
            message,
            "error: from-after-to: --from "@ + decimal_text(from) + " is greater than --to "@
                + decimal_text(to),
        ),
        ErrorView::EmptyGuard { role } => occurs(
            message,
            "error: empty-guard: --"@ + role_name(role) + "-guard must be"@,
        ),
        ErrorView::FileMissing { path, is_dest } => occurs(
            message,
            (if is_dest {
                "error: io: destination file "@
            } else {
                "error: io: file "@
            }) + quoted_text(path) + " does not exist"@,
        ),
        ErrorView::Usage(text) => message == "error: usage: "@ + text,
        ErrorView::Io(text) => message == "error: io: "@ + text,
        ErrorView::Multi(outcomes) => message + "\n"@ == "error: "@ + decimal_text(
            failed(outcomes),
        ) + (if failed(outcomes) == 1 {
            " coordinate"@
        } else {
            " coordinates"@
        }) + " failed:\n"@ + one_by_one(outcomes),
    }
}

/// What is said of each of several coordinates, one after the other.
pub open spec fn one_by_one(outcomes: Seq<OutcomeView>) -> Seq<char>
    decreases outcomes.len(),
{
    if outcomes.len() == 0 {
        Seq::empty()
    } else {
        consolidated_text(outcomes[0]) + one_by_one(outcomes.skip(1))
    }
}

/// One coordinate's part of a report names the coordinate and where it resolved,
/// or the word for the error and what it is about.
pub open spec fn says_of(part: Seq<char>, outcome: OutcomeView) -> bool {
    let name = role_name(outcome.role);
    match outcome.result {
        Ok(line) => part == "  --"@ + name + "\tok: line "@ + decimal_text(line) + "\n"@,
        Err(ErrorView::Drift { guard, addressed, actual, .. }) => {
            &&& occurs(
                part,
                "  --"@ + name + "\tdrift: anchor "@ + quoted_text(guard) + " resolved at line "@
                    + decimal_text(actual) + ", not "@ + decimal_text(addressed),
            )
            &&& occurs(part, " (retry with --"@ + name + " "@ + decimal_text(actual) + ")\n"@)
        },
        Err(ErrorView::GuardNotFound { guard, path, .. }) => part == "  --"@ + name
            + "\tguard-not-found: "@ + quoted_text(guard) + " not found in "@ + path + "\n"@,
        Err(ErrorView::Ambiguous { guard, matches, .. }) => part == "  --"@ + name
            + "\tambiguous-anchor: "@ + quoted_text(guard) + " matches "@ + decimal_text(
            matches.len(),
        ) + " lines (add --"@ + name + "-context):\n"@ + listing("       "@, matches),
        Err(ErrorView::OutOfRange { line, count, path, .. }) => part == "  --"@ + name
            + "\tout-of-range: line "@ + decimal_text(line) + " is outside [1, "@ + decimal_text(
            count,
        ) + "] in "@ + path + "\n"@,
        Err(ErrorView::EmptyGuard { .. }) => occurs(
            part,
            "  --"@ + name + "\tempty-guard: --"@ + name + "-guard must be"@,
        ),
        Err(error) => part == "  --"@ + name + "\t"@ + message_text(error) + "\n"@,
    }
}

proof fn lemma_front(hay: Seq<char>, needle: Seq<char>, rest: Seq<char>)
    requires
        hay == needle + rest,
    ensures
        occurs(hay, needle),
{
    occurrences_have_two_sides(hay, needle);
    assert(hay =~= Seq::empty() + needle + rest);
}

proof fn lemma_middle(hay: Seq<char>, front: Seq<char>, needle: Seq<char>, rest: Seq<char>)
    requires
        hay == front + needle + rest,
    ensures
        occurs(hay, needle),
{
    occurrences_have_two_sides(hay, needle);
}

proof fn lemma_must_be() -> (rests: (Seq<char>, Seq<char>))
    ensures
        "-guard must be a non-empty substring"@ == "-guard must be"@ + rests.0,
        "-guard must be a non-empty substring\n"@ == "-guard must be"@ + rests.1,
{
    reveal_strlit("-guard must be a non-empty substring");
    reveal_strlit("-guard must be a non-empty substring\n");
    reveal_strlit("-guard must be");
    let n = "-guard must be"@.len() as int;
    let a = "-guard must be a non-empty substring"@;
    let b = "-guard must be a non-empty substring\n"@;
    assert(a =~= "-guard must be"@ + a.skip(n));
    assert(b =~= "-guard must be"@ + b.skip(n));
    (a.skip(n), b.skip(n))
}

proof fn lemma_not_there() -> (rest: Seq<char>)
    ensures
        " does not exist; span relocates into existing files only"@ == " does not exist"@ + rest,
{
    reveal_strlit(" does not exist; span relocates into existing files only");
    reveal_strlit(" does not exist");
    let n = " does not exist"@.len() as int;
    let a = " does not exist; span relocates into existing files only"@;
    assert(a =~= " does not exist"@ + a.skip(n));
    a.skip(n)
}

proof fn lemma_grouped(a: Seq<char>, b: Seq<char>, c: Seq<char>)
    ensures
        a + (b + c) == a + b + c,
{
    assert(a + (b + c) =~= a + b + c);
}

proof fn lemma_grouped_more(a: Seq<char>, b: Seq<char>, c: Seq<char>, d: Seq<char>)
    ensures
        a + b + c + d == a + (b + c + d),
        a + b + c + d == a + (b + c) + d,
        a + (b + c) + d == a + b + (c + d),
{
    assert(a + b + c + d =~= a + (b + c + d));
    assert(a + b + c + d =~= a + (b + c) + d);
    assert(a + (b + c) + d =~= a + b + (c + d));
}

/// The message of an error says what is wrong.
pub proof fn messages_say_what_is_wrong(error: ErrorView)
    ensures
        says(message_text(error), error),
{
    let message = message_text(error);
    match error {
        ErrorView::GuardNotFound { role, guard, path } => {
            let told = "error: guard-not-found: --"@ + role_name(role) + "-guard "@ + quoted_text(
                guard,
            );
            let place = " not found in "@ + path;
            lemma_grouped(told, " not found in "@, path);
            lemma_front(message, told, place);
            assert(message =~= told + place + Seq::empty());
            lemma_middle(message, told, place, Seq::empty());
        },
        ErrorView::Ambiguous { role, guard, matches, path } => {
            let head = "error: ambiguous-anchor: --"@ + role_name(role) + "-guard "@ + quoted_text(
                guard,
            ) + " matches "@ + decimal_text(matches.len()) + " lines in "@ + path + ":\n"@;
            let add = "  hint: add --"@;
            let name = role_name(role);
            let rest = "-context (e.g. a distinctive neighbor line) to make it unique"@;
            lemma_candidate_rows(head, "   "@, matches, matches.len() as int);
            assert(matches.take(matches.len() as int) == matches);
            let told = head + listing("   "@, matches);
            lemma_grouped_more(told, add, name, rest);
            lemma_front(message, told, add + name + rest);
            lemma_middle(message, told, add + name, rest);
        },
        ErrorView::Drift { role, guard, addressed, actual } => {
            let name = role_name(role);
            let told = "error: drift: --"@ + name + " anchor "@ + quoted_text(guard)
                + " resolved at line "@ + decimal_text(actual);
            let not = ", not "@;
            let number = decimal_text(addressed);
            let retry = "; retry with --"@ + name + " "@ + decimal_text(actual);
            let whole = told + (not + number) + retry;
            assert(message =~= whole) by {
                assert(message == told + not + number + "; retry with --"@ + name + " "@
                    + decimal_text(actual));
                lemma_grouped_more(
                    told + not + number,
                    "; retry with --"@ + name,
                    " "@,
                    decimal_text(actual),
                );
                lemma_grouped(told + not + number, "; retry with --"@, name);
                lemma_grouped(told, not, number);
            }
            lemma_grouped(told, not + number, retry);
            lemma_front(message, told, not + number + retry);
            lemma_middle(message, told, not + number, retry);
            assert(message =~= told + (not + number) + retry + Seq::empty());
            lemma_middle(message, told + (not + number), retry, Seq::empty());
        },
        ErrorView::OutOfRange { .. } => {
            assert(message =~= message + Seq::empty());
            lemma_front(message, message, Seq::empty());
        },
        ErrorView::DestInSpan { dest, from, to } => {
            let told = "error: dest-in-span: --dest "@ + decimal_text(dest) + " lies within ["@
                + decimal_text(from) + ", "@ + decimal_text(to);
            lemma_front(message, told, "]; choose a destination outside the span"@);
        },
        ErrorView::FromAfterTo { .. } => {
            assert(message =~= message + Seq::empty());
            lemma_front(message, message, Seq::empty());
        },
        ErrorView::EmptyGuard { role } => {
            let rests = lemma_must_be();
            let told = "error: empty-guard: --"@ + role_name(role);
            lemma_grouped(told, "-guard must be"@, rests.0);
            lemma_front(message, told + "-guard must be"@, rests.0);
        },
        ErrorView::FileMissing { path, is_dest } => {
            let rest = lemma_not_there();
            if is_dest {
                let told = "error: io: destination file "@ + quoted_text(path);
                lemma_grouped(told, " does not exist"@, rest);
                lemma_front(message, told + " does not exist"@, rest);
            } else {
                assert(message =~= message + Seq::empty());
                lemma_front(message, message, Seq::empty());
            }
        },
        ErrorView::Usage(_) => {},
        ErrorView::Io(_) => {},
        ErrorView::Multi(outcomes) => {
            lemma_report(outcomes);
        },
    }
}

proof fn lemma_failed_push(outcomes: Seq<OutcomeView>)
    ensures
        failed(outcomes) == failure_count(outcomes),
    decreases outcomes.len(),
{
    if outcomes.len() > 0 {
        lemma_failed_push(outcomes.drop_last());
        lemma_failed_last(outcomes);
    }
}

proof fn lemma_failed_last(outcomes: Seq<OutcomeView>)
    requires
        outcomes.len() > 0,
    ensures
        failed(outcomes) == failed(outcomes.drop_last()) + if outcomes.last().result is Err {
            1nat
        } else {
            0
        },
    decreases outcomes.len(),
{
    if outcomes.len() == 1 {
        assert(failed(outcomes.skip(1)) == 0);
        assert(failed(outcomes.drop_last()) == 0);
        assert(outcomes.last() == outcomes[0]);
    } else {
        let rest = outcomes.skip(1);
        lemma_failed_last(rest);
        assert(rest.drop_last() == outcomes.drop_last().skip(1));
        assert(rest.last() == outcomes.last());
        assert(outcomes.drop_last()[0] == outcomes[0]);
    }
}

proof fn lemma_one_by_one_end(outcomes: Seq<OutcomeView>)
    requires
        outcomes.len() > 0,
    ensures
        one_by_one(outcomes) == one_by_one(outcomes.drop_last()) + consolidated_text(
            outcomes.last(),
        ),
    decreases outcomes.len(),
{
    let first = consolidated_text(outcomes[0]);
    let last = consolidated_text(outcomes.last());
    if outcomes.len() == 1 {
        assert(one_by_one(outcomes.skip(1)) == Seq::<char>::empty());
        assert(one_by_one(outcomes.drop_last()) == Seq::<char>::empty());
        assert(first + Seq::<char>::empty() =~= Seq::<char>::empty() + last);
    } else {
        let rest = outcomes.skip(1);
        lemma_one_by_one_end(rest);
        assert(rest.drop_last() == outcomes.drop_last().skip(1));
        assert(rest.last() == outcomes.last());
        assert(outcomes.drop_last()[0] == outcomes[0]);
        lemma_grouped(first, one_by_one(rest.drop_last()), last);
    }
}

proof fn lemma_outcome_rows(head: Seq<char>, outcomes: Seq<OutcomeView>, n: int)
    requires
        0 <= n <= outcomes.len(),
    ensures
        outcome_rows(head, outcomes, quoted_parts(outcomes), n) == head + one_by_one(
            outcomes.take(n),
        ),
    decreases n,
{
    if n == 0 {
        assert(outcomes.take(0).len() == 0);
        assert(head + one_by_one(outcomes.take(0)) =~= head);
    } else {
        lemma_outcome_rows(head, outcomes, n - 1);
        let part = outcomes.take(n);
        lemma_one_by_one_end(part);
        assert(part.drop_last() == outcomes.take(n - 1));
        assert(part.last() == outcomes[n - 1]);
        assert(quoted_parts(outcomes)[n - 1] == quoted_text(outcome_part(outcomes[n - 1])));
        lemma_grouped(head, one_by_one(part.drop_last()), consolidated_text(part.last()));
    }
}

proof fn lemma_ends_with_newline(a: Seq<char>, b: Seq<char>)
    requires
        b.len() > 0,
        b.last() == '\n',
    ensures
        (a + b).len() > 0,
        (a + b).last() == '\n',
{
    assert((a + b)[(a + b).len() - 1] == b[b.len() - 1]);
}

/// One coordinate's part of a report ends with a line feed.
proof fn lemma_part_ends(outcome: OutcomeView)
    ensures
        consolidated_text(outcome).len() > 0,
        consolidated_text(outcome).last() == '\n',
{
    let quoted = quoted_text(outcome_part(outcome));
    let part = consolidated_text(outcome);
    reveal_strlit("\n");
    reveal_strlit(")\n");
    reveal_strlit("-context):\n");
    reveal_strlit("-guard must be a non-empty substring\n");
    match outcome.result {
        Err(ErrorView::Ambiguous { matches, .. }) => {
            let n = matches.len() as int;
            if n > 0 {
                assert(part.last() == '\n');
            }
        },
        _ => {},
    }
}

proof fn lemma_report(outcomes: Seq<OutcomeView>)
    ensures
        says(message_text(ErrorView::Multi(outcomes)), ErrorView::Multi(outcomes)),
{
    let n = outcomes.len() as int;
    let count = failure_count(outcomes);
    lemma_failed_push(outcomes);
    let head = "error: "@ + decimal_text(count) + (if count == 1 {
        " coordinate"@
    } else {
        " coordinates"@
    }) + " failed:\n"@;
    lemma_outcome_rows(head, outcomes, n);
    assert(outcomes.take(n) == outcomes);
    let whole = head + one_by_one(outcomes);
    assert(report_quoting(outcomes, quoted_parts(outcomes)) == whole.drop_last());
    reveal_strlit("\n");
    reveal_strlit(" failed:\n");
    assert(whole.len() > 0 && whole.last() == '\n') by {
        if n > 0 {
            lemma_one_by_one_end(outcomes);
            lemma_part_ends(outcomes.last());
            lemma_ends_with_newline(
                one_by_one(outcomes.drop_last()),
                consolidated_text(outcomes.last()),
            );
            lemma_ends_with_newline(head, one_by_one(outcomes));
        } else {
            assert(whole =~= head);
        }
    }
    assert(whole.drop_last() + "\n"@ =~= whole);
}

/// One coordinate's part of a report says what came of it.
pub proof fn reports_say_what_came_of_each(outcome: OutcomeView)
    ensures
        says_of(consolidated_text(outcome), outcome),
{
    let part = consolidated_text(outcome);
    let name = role_name(outcome.role);
    match outcome.result {
        Err(ErrorView::Drift { guard, addressed, actual, .. }) => {
            let told = "  --"@ + name + "\tdrift: anchor "@ + quoted_text(guard)
                + " resolved at line "@ + decimal_text(actual) + ", not "@ + decimal_text(
                addressed,
            );
            let open = " (retry with --"@;
            let number = decimal_text(actual);
            let retry = open + name + " "@ + number + ")\n"@;
            lemma_retry(told, open, name, " "@, number, ")\n"@);
            lemma_front(part, told, retry);
            assert(part =~= told + retry + Seq::empty());
            lemma_middle(part, told, retry, Seq::empty());
        },
        Err(ErrorView::Ambiguous { guard, matches, .. }) => {
            let head = "  --"@ + name + "\tambiguous-anchor: "@ + quoted_text(guard) + " matches "@
                + decimal_text(matches.len()) + " lines (add --"@ + name + "-context):\n"@;
            lemma_candidate_rows(head, "       "@, matches, matches.len() as int);
            assert(matches.take(matches.len() as int) == matches);
        },
        Err(ErrorView::EmptyGuard { .. }) => {
            let rests = lemma_must_be();
            let told = "  --"@ + name + "\tempty-guard: --"@ + name;
            lemma_grouped(told, "-guard must be"@, rests.1);
            lemma_front(part, told + "-guard must be"@, rests.1);
        },
        _ => {},
    }
}

proof fn lemma_retry(
    told: Seq<char>,
    a: Seq<char>,
    b: Seq<char>,
    c: Seq<char>,
    d: Seq<char>,
    e: Seq<char>,
)
    ensures
        told + a + b + c + d + e == told + (a + b + c + d + e),
{
    assert(told + a + b + c + d + e =~= told + (a + b + c + d + e));
}

} // verus!
