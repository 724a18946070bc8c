//! What a coordinate resolves to, told of the lines and the texts on them.

use vstd::prelude::*;
use vstd::utf8::{decode_utf8_encode_utf8, encode_utf8, valid_utf8};

use crate::anchor::{
    bears, listed, matching, parsed_flag, parsed_flags, resolution, satisfied, ContextView,
};
use crate::error::{ErrorView, Role};
use crate::laws::coordinates::matches_are_listed;
use crate::laws::telling::role_name;
use crate::laws::vocabulary::first_is_first;
use crate::lines::logical;
use crate::numeral::{all_digits, digits_value, is_digit, offset_value};
use crate::outside::quoted_text;
use crate::search::{first_index, lemma_first_index, occurs};

verus! {

/// There is a line `num`, counted from one, and the text stands in its content.
pub open spec fn line_has(lines: Seq<Seq<u8>>, num: int, text: Seq<char>) -> bool {
    1 <= num <= lines.len() && occurs(logical(lines[num - 1]), encode_utf8(text))
}

/// Line `num` has the guard, and of every neighbor anchor, the line it points to
/// exists and has its text.
pub open spec fn fits(
    lines: Seq<Seq<u8>>,
    num: int,
    guard: Seq<char>,
    context: Seq<ContextView>,
) -> bool {
    &&& line_has(lines, num, guard)
    &&& forall|k: int|
        0 <= k < context.len() ==> line_has(
            lines,
            num + (#[trigger] context[k]).offset,
            context[k].guard,
        )
}

/// Line `num` fits, and no other line does.
pub open spec fn only_fit(
    lines: Seq<Seq<u8>>,
    num: int,
    guard: Seq<char>,
    context: Seq<ContextView>,
) -> bool {
    &&& fits(lines, num, guard, context)
    &&& forall|other: int| #[trigger] fits(lines, other, guard, context) ==> other == num
}

proof fn lemma_fits(lines: Seq<Seq<u8>>, num: int, guard: Seq<char>, context: Seq<ContextView>)
    ensures
        satisfied(lines, num, guard, context) <==> fits(lines, num, guard, context),
{
    if satisfied(lines, num, guard, context) {
        assert forall|k: int| 0 <= k < context.len() implies line_has(
            lines,
            num + (#[trigger] context[k]).offset,
            context[k].guard,
        ) by {
            assert(bears(lines, num + context[k].offset, context[k].guard));
        }
    }
    if fits(lines, num, guard, context) {
        assert forall|k: int| 0 <= k < context.len() implies #[trigger] bears(
            lines,
            num + context[k].offset,
            context[k].guard,
        ) by {
            assert(line_has(lines, num + context[k].offset, context[k].guard));
        }
    }
}

/// A coordinate resolves to a line exactly where that line has the guard and
/// every neighbor has its text, no other line does, the guard is not empty, and
/// the number that goes with it, if any, is that line's.
pub proof fn coordinates_resolve_to_the_line_that_fits(
    lines: Seq<Seq<u8>>,
    path: Seq<char>,
    role: Role,
    addressed: Option<nat>,
    guard: Seq<char>,
    context: Seq<ContextView>,
    num: nat,
)
    ensures
        resolution(lines, path, role, addressed, guard, context) == Ok::<nat, ErrorView>(num) <==> {
            &&& guard.len() > 0
            &&& addressed is None || addressed == Some(num)
            &&& only_fit(lines, num as int, guard, context)
        },
{
    let found = matching(lines, guard, context, lines.len() as int);
    matches_are_listed(lines, guard, context, lines.len() as int);
    lemma_fits(lines, num as int, guard, context);
    if only_fit(lines, num as int, guard, context) {
        assert(found.contains(num));
        if found.len() > 1 {
            lemma_fits(lines, found[0] as int, guard, context);
            lemma_fits(lines, found[1] as int, guard, context);
            assert(satisfied(lines, found[0] as int, guard, context));
            assert(satisfied(lines, found[1] as int, guard, context));
            assert(found[0] < found[1]);
        }
        assert(found.len() == 1);
        assert(found[0] == num);
    }
    if found.len() == 1 && found[0] == num {
        assert(satisfied(lines, found[0] as int, guard, context));
        assert forall|other: int| #[trigger] fits(lines, other, guard, context) implies other
            == num by {
            lemma_fits(lines, other, guard, context);
            assert(found.contains(other as nat));
        }
    }
}

/// The candidates are the lines that fit, all of them and no others, from top to
/// bottom, each with its content where that is UTF-8.
pub open spec fn lists_fits(
    lines: Seq<Seq<u8>>,
    guard: Seq<char>,
    context: Seq<ContextView>,
    candidates: Seq<(nat, Seq<char>)>,
) -> bool {
    &&& forall|k: int|
        0 <= k < candidates.len() ==> fits(
            lines,
            (#[trigger] candidates[k]).0 as int,
            guard,
            context,
        )
    &&& forall|j: int, k: int| 0 <= j < k < candidates.len() ==> candidates[j].0 < candidates[k].0
    &&& forall|num: int|
        #[trigger] fits(lines, num, guard, context) ==> exists|k: int|
            0 <= k < candidates.len() && (#[trigger] candidates[k]).0 == num
    &&& forall|k: int|
        0 <= k < candidates.len() && valid_utf8(logical(lines[candidates[k].0 - 1]))
            ==> encode_utf8((#[trigger] candidates[k]).1) == logical(lines[candidates[k].0 - 1])
}

/// Why a coordinate does not resolve. An empty guard comes first, then a number
/// that is no line's; then it counts how many lines fit. With none, the guard was
/// not found; with two or more it is ambiguous, and all of them are listed,
/// whatever the number; with one that is not the line with the number, the line
/// has drifted.
pub open spec fn fails_with(
    lines: Seq<Seq<u8>>,
    path: Seq<char>,
    role: Role,
    addressed: Option<nat>,
    guard: Seq<char>,
    context: Seq<ContextView>,
    error: ErrorView,
) -> bool {
    if guard.len() == 0 {
        error == (ErrorView::EmptyGuard { role })
    } else if addressed is Some && !(1 <= addressed->0 <= lines.len()) {
        error == (ErrorView::OutOfRange { role, line: addressed->0, count: lines.len(), path })
    } else if forall|num: int| !#[trigger] fits(lines, num, guard, context) {
        error == (ErrorView::GuardNotFound { role, guard, path })
    } else if exists|num: int| #[trigger] only_fit(lines, num, guard, context) {
        let num = choose|num: int| #[trigger] only_fit(lines, num, guard, context);
        addressed is Some && addressed->0 != num && error == (ErrorView::Drift {
            role,
            guard,
            addressed: addressed->0,
            actual: num as nat,
        })
    } else {
        error matches ErrorView::Ambiguous { role: r, guard: g, matches, path: p } && r == role
            && g == guard && p == path && lists_fits(lines, guard, context, matches)
            && matches.len() >= 2
    }
}

/// A coordinate that does not resolve says which of the reasons it is.
pub proof fn failures_have_their_reason(
    lines: Seq<Seq<u8>>,
    path: Seq<char>,
    role: Role,
    addressed: Option<nat>,
    guard: Seq<char>,
    context: Seq<ContextView>,
    error: ErrorView,
)
    requires
        resolution(lines, path, role, addressed, guard, context) == Err::<nat, ErrorView>(error),
    ensures
        fails_with(lines, path, role, addressed, guard, context, error),
{
    let found = matching(lines, guard, context, lines.len() as int);
    matches_are_listed(lines, guard, context, lines.len() as int);
    assert forall|num: int| #[trigger] fits(lines, num, guard, context) implies found.contains(
        num as nat,
    ) by {
        lemma_fits(lines, num, guard, context);
    }
    assert forall|k: int| 0 <= k < found.len() implies fits(
        lines,
        #[trigger] found[k] as int,
        guard,
        context,
    ) by {
        lemma_fits(lines, found[k] as int, guard, context);
        assert(satisfied(lines, found[k] as int, guard, context));
    }
    if found.len() > 0 {
        assert(fits(lines, found[0] as int, guard, context));
    }
    if exists|num: int| #[trigger] only_fit(lines, num, guard, context) {
        let num = choose|num: int| #[trigger] only_fit(lines, num, guard, context);
        assert(found.contains(num as nat));
        if found.len() > 1 {
            assert(fits(lines, found[0] as int, guard, context));
            assert(fits(lines, found[1] as int, guard, context));
            assert(found[0] < found[1]);
        }
        assert(found.len() == 1 && found[0] == num);
    } else if found.len() == 1 {
        assert forall|other: int| #[trigger] fits(lines, other, guard, context) implies other
            == found[0] by {
            assert(found.contains(other as nat));
        }
        assert(only_fit(lines, found[0] as int, guard, context));
    }
    if found.len() > 1 {
        let all = listed(lines, found);
        assert forall|k: int| 0 <= k < all.len() implies (#[trigger] all[k]).0 == found[k] && fits(
            lines,
            all[k].0 as int,
            guard,
            context,
        ) by {
            assert(fits(lines, found[k] as int, guard, context));
        }
        assert forall|num: int| #[trigger] fits(lines, num, guard, context) implies exists|k: int|
            0 <= k < all.len() && (#[trigger] all[k]).0 == num by {
            assert(found.contains(num as nat));
            let k = choose|k: int| 0 <= k < found.len() && found[k] == num as nat;
            assert(all[k].0 == num);
        }
        assert forall|k: int|
            0 <= k < all.len() && valid_utf8(logical(lines[all[k].0 - 1])) implies encode_utf8(
            (#[trigger] all[k]).1,
        ) == logical(lines[all[k].0 - 1]) by {
            decode_utf8_encode_utf8(logical(lines[all[k].0 - 1]));
        }
        assert(lists_fits(lines, guard, context, all));
    }
}

/// The text is read as the neighbor anchor: an integer other than zero, the
/// first colon, and a text that is not empty.
pub open spec fn reads_as(text: Seq<char>, anchor: ContextView) -> bool {
    exists|number: Seq<char>| #[trigger] reads_with(text, number, anchor)
}

/// The same, `number` being what stands before the colon.
pub open spec fn reads_with(text: Seq<char>, number: Seq<char>, anchor: ContextView) -> bool {
    &&& text == number.push(':') + anchor.guard
    &&& forall|i: int| 0 <= i < number.len() ==> #[trigger] number[i] != ':'
    &&& i64::MIN <= anchor.offset <= i64::MAX
    &&& offset_value(number) == Some(anchor.offset as i64)
    &&& anchor.offset != 0
    &&& anchor.guard.len() > 0
}

/// The texts are read as the neighbor anchors, one by one.
pub open spec fn all_read_as(texts: Seq<Seq<char>>, anchors: Seq<ContextView>) -> bool {
    texts.len() == anchors.len() && forall|k: int|
        0 <= k < texts.len() ==> reads_as(texts[k], #[trigger] anchors[k])
}

/// One neighbor anchor is read exactly where it can be.
pub proof fn flags_are_read(text: Seq<char>, role: Role, anchor: ContextView)
    ensures
        parsed_flag(text, role) == Ok::<ContextView, ErrorView>(anchor) <==> reads_as(text, anchor),
{
    let at = first_index(text, ':') as int;
    lemma_first_index(text, ':');
    if parsed_flag(text, role) == Ok::<ContextView, ErrorView>(anchor) {
        let number = text.take(at);
        assert(text == number.push(':') + anchor.guard);
        assert(reads_with(text, number, anchor));
    }
    if reads_as(text, anchor) {
        let number = choose|number: Seq<char>| #[trigger] reads_with(text, number, anchor);
        let n = number.len() as int;
        assert(text[n] == ':');
        assert forall|i: int| 0 <= i < n implies #[trigger] text[i] != ':' by {
            assert(text[i] == number[i]);
        }
        first_is_first(text, ':', n);
        assert(text.take(n) == number);
        assert(text.skip(n + 1) == anchor.guard);
    }
}

/// All neighbor anchors of a role are read exactly where every one can be.
pub proof fn all_flags_are_read(
    texts: Seq<Seq<char>>,
    role: Role,
    anchors: Seq<ContextView>,
)
    ensures
        parsed_flags(texts, role) == Ok::<Seq<ContextView>, ErrorView>(anchors) <==> all_read_as(
            texts,
            anchors,
        ),
    decreases texts.len(),
{
    if texts.len() == 0 {
        assert(anchors.len() == 0 ==> anchors == Seq::<ContextView>::empty());
    } else {
        let earlier = texts.drop_last();
        if anchors.len() > 0 {
            let before = anchors.drop_last();
            all_flags_are_read(earlier, role, before);
            flags_are_read(texts.last(), role, anchors.last());
            assert(anchors == before.push(anchors.last()));
            if all_read_as(texts, anchors) {
                assert forall|k: int| 0 <= k < earlier.len() implies reads_as(
                    earlier[k],
                    #[trigger] before[k],
                ) by {
                    assert(reads_as(texts[k], anchors[k]));
                }
                assert(reads_as(texts[texts.len() - 1], anchors[anchors.len() - 1]));
            }
            if parsed_flags(texts, role) == Ok::<Seq<ContextView>, ErrorView>(anchors) {
                let got = parsed_flags(earlier, role)->Ok_0;
                let last = parsed_flag(texts.last(), role)->Ok_0;
                assert(got.push(last).drop_last() == got);
                assert(got == before && last == anchors.last());
                assert forall|k: int| 0 <= k < texts.len() implies reads_as(
                    texts[k],
                    #[trigger] anchors[k],
                ) by {
                    if k < earlier.len() {
                        assert(reads_as(earlier[k], before[k]));
                    }
                }
            }
        }
    }
}

/// Why a flag cannot be read: there is no colon in it; what stands before the
/// first is no integer, or zero; or nothing stands behind it. A misuse is told
/// with the flag, and with what is wrong of it in quotation marks.
pub open spec fn unread(text: Seq<char>, role: Role, error: ErrorView) -> bool {
    let flag = "--"@ + role_name(role) + "-context "@;
    if !text.contains(':') {
        error == ErrorView::Usage(flag + quoted_text(text) + " must be of the form offset:guard"@)
    } else {
        exists|number: Seq<char>, guard: Seq<char>|
            {
                &&& text == #[trigger] (number.push(':') + guard)
                &&& !number.contains(':')
                &&& error == if offset_value(number) is None {
                    ErrorView::Usage(
                        flag + "offset "@ + quoted_text(number) + " is not an integer"@,
                    )
                } else if offset_value(number) == Some(0i64) {
                    ErrorView::Usage(flag + "offset must be non-zero"@)
                } else {
                    ErrorView::EmptyGuard { role }
                }
                &&& error is EmptyGuard ==> guard.len() == 0
            }
    }
}

/// The flag can be read.
pub open spec fn readable_flag(text: Seq<char>) -> bool {
    exists|anchor: ContextView| #[trigger] reads_as(text, anchor)
}

/// The flags before the one at index `k` can be read, and that one cannot, for
/// the given error.
pub open spec fn unread_at(texts: Seq<Seq<char>>, role: Role, error: ErrorView, k: int) -> bool {
    &&& 0 <= k < texts.len()
    &&& unread(texts[k], role, error)
    &&& forall|i: int| 0 <= i < k ==> readable_flag(#[trigger] texts[i])
}

/// The list cannot be read, and the error is that of the first flag that cannot.
pub open spec fn first_unread(texts: Seq<Seq<char>>, role: Role, error: ErrorView) -> bool {
    exists|k: int| #[trigger] unread_at(texts, role, error, k)
}

proof fn lemma_unread(text: Seq<char>, role: Role)
    ensures
        parsed_flag(text, role) matches Err(error) ==> unread(text, role, error),
{
    let at = first_index(text, ':') as int;
    lemma_first_index(text, ':');
    if let Err(error) = parsed_flag(text, role) {
        let flag = "--"@ + role_name(role) + "-context "@;
        if at == text.len() {
            assert(!text.contains(':'));
        } else {
            assert(text[at] == ':');
            let number = text.take(at);
            let guard = text.skip(at + 1);
            assert(text =~= number.push(':') + guard);
            assert(!number.contains(':'));
            lemma_flag_words();
            let stem = "--"@ + role_name(role);
            assert(stem + "-context "@ + "offset "@ =~= stem + ("-context "@ + "offset "@));
            assert(stem + "-context "@ + "offset must be non-zero"@ =~= stem + ("-context "@
                + "offset must be non-zero"@));
        }
    }
}

proof fn lemma_flag_words()
    ensures
        "-context "@ + "offset "@ == "-context offset "@,
        "-context "@ + "offset must be non-zero"@ == "-context offset must be non-zero"@,
{
    reveal_strlit("-context ");
    reveal_strlit("offset ");
    reveal_strlit("-context offset ");
    reveal_strlit("offset must be non-zero");
    reveal_strlit("-context offset must be non-zero");
    assert("-context "@ + "offset "@ =~= "-context offset "@);
    assert("-context "@ + "offset must be non-zero"@ =~= "-context offset must be non-zero"@);
}

/// A list of flags that cannot all be read is refused for the first that cannot.
pub proof fn unreadable_flags_are_refused(texts: Seq<Seq<char>>, role: Role)
    ensures
        match parsed_flags(texts, role) {
            Ok(anchors) => all_read_as(texts, anchors),
            Err(error) => first_unread(texts, role, error),
        },
    decreases texts.len(),
{
    match parsed_flags(texts, role) {
        Ok(anchors) => {
            all_flags_are_read(texts, role, anchors);
        },
        Err(error) => {
            let earlier = texts.drop_last();
            let n = texts.len() - 1;
            unreadable_flags_are_refused(earlier, role);
            match parsed_flags(earlier, role) {
                Err(_) => {
                    let k = choose|k: int| #[trigger] unread_at(earlier, role, error, k);
                    assert(texts[k] == earlier[k]);
                    assert forall|i: int| 0 <= i < k implies readable_flag(#[trigger] texts[i]) by {
                        assert(readable_flag(earlier[i]));
                    }
                    assert(unread_at(texts, role, error, k));
                },
                Ok(anchors) => {
                    lemma_unread(texts.last(), role);
                    assert forall|i: int| 0 <= i < n implies readable_flag(#[trigger] texts[i]) by {
                        assert(earlier[i] == texts[i]);
                        assert(reads_as(earlier[i], anchors[i]));
                    }
                    assert(unread_at(texts, role, error, n));
                },
            }
        },
    }
}

/// The offset of a neighbor is an integer in decimal: digits, with `+` or `-`
/// in front or not, within 64 bits. Anything else is none.
pub proof fn offsets_are_integers(digits: Seq<char>)
    requires
        digits.len() > 0,
        all_digits(digits),
    ensures
        digits_value(digits) <= i64::MAX ==> offset_value(digits) == Some(
            digits_value(digits) as i64,
        ) && offset_value(seq!['+'] + digits) == Some(digits_value(digits) as i64)
            && offset_value(seq!['-'] + digits) == Some((-(digits_value(digits) as int)) as i64),
        digits_value(digits) == 0x8000_0000_0000_0000 ==> offset_value(seq!['-'] + digits) == Some(
            i64::MIN,
        ),
        digits_value(digits) > i64::MAX ==> offset_value(digits) is None && offset_value(
            seq!['+'] + digits,
        ) is None,
        digits_value(digits) > 0x8000_0000_0000_0000 ==> offset_value(seq!['-'] + digits) is None,
{
    assert((seq!['+'] + digits).skip(1) == digits);
    assert((seq!['-'] + digits).skip(1) == digits);
    assert(is_digit(digits[0]));
}

/// A text with anything but digits behind its sign, or nothing, is no offset.
pub proof fn other_texts_are_no_offsets(text: Seq<char>, i: int)
    requires
        0 <= i <= text.len(),
        i < text.len() ==> !is_digit(text[i]),
        i == text.len() ==> i == 0 || (i == 1 && !is_digit(text[0])),
        i == 0 && text.len() > 1 ==> text[0] != '+' && text[0] != '-',
    ensures
        offset_value(text) is None,
{
    let signed = text.len() > 0 && (text[0] == '-' || text[0] == '+');
    if signed {
        if i < text.len() && i > 0 {
            assert(text.skip(1)[i - 1] == text[i]);
        }
    }
}

/// Each further digit counts ten times what came before.
pub proof fn digits_count_by_ten(digits: Seq<char>, digit: char)
    requires
        is_digit(digit),
    ensures
        digits_value(Seq::<char>::empty()) == 0,
        digits_value(digits.push(digit)) == 10 * digits_value(digits) + (digit as u32 - 48),
{
    assert(digits.push(digit).drop_last() == digits);
}

} // verus!
