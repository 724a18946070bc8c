//! Coordinates: an anchor addresses one line or none, and says so.

use vstd::prelude::*;

use crate::anchor::{listed, matching, parsed_flag, resolution, satisfied, ContextView};
use crate::error::{ErrorView, Role};
use crate::numeral::{
    all_digits, decimal_text, digit_char, digits_value, is_digit, offset_value, signed_text,
};
use crate::search::{first_index, lemma_first_index};

verus! {

/// Line `num` satisfies the anchor, and no other line does.
pub open spec fn only_match(
    lines: Seq<Seq<u8>>,
    num: int,
    guard: Seq<char>,
    context: Seq<ContextView>,
) -> bool {
    &&& 1 <= num <= lines.len()
    &&& satisfied(lines, num, guard, context)
    &&& forall|other: int|
        1 <= other <= lines.len() && #[trigger] satisfied(lines, other, guard, context) ==> other
            == num
}

/// The lines listed for an anchor are the lines that satisfy it, each of them
/// once, from top to bottom.
pub proof fn matches_are_listed(
    lines: Seq<Seq<u8>>,
    guard: Seq<char>,
    context: Seq<ContextView>,
    n: int,
)
    ensures
        ({
            let found = matching(lines, guard, context, n);
            &&& forall|k: int|
                0 <= k < found.len() ==> 1 <= #[trigger] found[k] <= n && satisfied(
                    lines,
                    found[k] as int,
                    guard,
                    context,
                )
            &&& forall|j: int, k: int| 0 <= j < k < found.len() ==> found[j] < found[k]
            &&& forall|num: int|
                1 <= num <= n && #[trigger] satisfied(lines, num, guard, context)
                    ==> found.contains(num as nat)
        }),
    decreases n,
{
    if n > 0 {
        matches_are_listed(lines, guard, context, n - 1);
        let earlier = matching(lines, guard, context, n - 1);
        let found = matching(lines, guard, context, n);
        assert forall|num: int|
            1 <= num <= n && #[trigger] satisfied(
                lines,
                num,
                guard,
                context,
            ) implies found.contains(num as nat) by {
            if num == n {
                assert(found[found.len() - 1] == n);
            } else {
                let k = choose|k: int| 0 <= k < earlier.len() && earlier[k] == num;
                assert(found[k] == num);
            }
        }
    }
}

/// A coordinate resolves to a line exactly where its anchor, which is not
/// empty, is satisfied by that line and no other, and the number that goes
/// with it, if any, is that line's.
pub proof fn resolves_to_the_only_match(
    lines: Seq<Seq<u8>>,
    path: Seq<char>,
    role: Role,
    addressed: Option<nat>,
    guard: Seq<char>,
    context: Seq<ContextView>,
    num: nat,
)
    ensures
        resolution(lines, path, role, addressed, guard, context) == Ok::<nat, ErrorView>(num) <==> {
            &&& guard.len() > 0
            &&& addressed is None || addressed == Some(num)
            &&& only_match(lines, num as int, guard, context)
        },
{
    let found = matching(lines, guard, context, lines.len() as int);
    matches_are_listed(lines, guard, context, lines.len() as int);
    if only_match(lines, num as int, guard, context) {
        assert(found.contains(num));
        assert(found.len() == 1) by {
            if found.len() > 1 {
                assert(satisfied(lines, found[0] as int, guard, context));
                assert(satisfied(lines, found[1] as int, guard, context));
                assert(found[0] < found[1]);
            }
        }
        assert(found[0] == num);
    }
    if found.len() == 1 && found[0] == num {
        assert forall|other: int|
            1 <= other <= lines.len() && #[trigger] satisfied(
                lines,
                other,
                guard,
                context,
            ) implies other == num by {
            assert(found.contains(other as nat));
        }
        assert(satisfied(lines, found[0] as int, guard, context));
    }
}

/// A number only adds a check: a coordinate without one resolves to a line
/// exactly where the coordinate with that line's number does.
pub proof fn number_is_only_a_check(
    lines: Seq<Seq<u8>>,
    path: Seq<char>,
    role: Role,
    guard: Seq<char>,
    context: Seq<ContextView>,
    num: nat,
)
    ensures
        resolution(lines, path, role, None, guard, context) == Ok::<nat, ErrorView>(num)
            <==> resolution(lines, path, role, Some(num), guard, context) == Ok::<nat, ErrorView>(
            num,
        ),
{
    resolves_to_the_only_match(lines, path, role, None, guard, context, num);
    resolves_to_the_only_match(lines, path, role, Some(num), guard, context, num);
}

/// An anchor that two lines satisfy is refused, with or without a number, and
/// the refusal lists every line that does.
pub proof fn ambiguity_is_loud(
    lines: Seq<Seq<u8>>,
    path: Seq<char>,
    role: Role,
    addressed: Option<nat>,
    guard: Seq<char>,
    context: Seq<ContextView>,
    one: int,
    other: int,
)
    requires
        guard.len() > 0,
        addressed matches Some(num) ==> 1 <= num <= lines.len(),
        1 <= one < other <= lines.len(),
        satisfied(lines, one, guard, context),
        satisfied(lines, other, guard, context),
    ensures
        resolution(lines, path, role, addressed, guard, context) == Err::<nat, ErrorView>(
            ErrorView::Ambiguous {
                role,
                guard,
                matches: listed(lines, matching(lines, guard, context, lines.len() as int)),
                path,
            },
        ),
{
    let found = matching(lines, guard, context, lines.len() as int);
    matches_are_listed(lines, guard, context, lines.len() as int);
    assert(found.contains(one as nat));
    assert(found.contains(other as nat));
}

/// An anchor that no line satisfies is refused.
pub proof fn absence_is_loud(
    lines: Seq<Seq<u8>>,
    path: Seq<char>,
    role: Role,
    addressed: Option<nat>,
    guard: Seq<char>,
    context: Seq<ContextView>,
)
    requires
        guard.len() > 0,
        addressed matches Some(num) ==> 1 <= num <= lines.len(),
        forall|num: int|
            1 <= num <= lines.len() ==> !#[trigger] satisfied(lines, num, guard, context),
    ensures
        resolution(lines, path, role, addressed, guard, context) == Err::<nat, ErrorView>(
            ErrorView::GuardNotFound { role, guard, path },
        ),
{
    let found = matching(lines, guard, context, lines.len() as int);
    matches_are_listed(lines, guard, context, lines.len() as int);
    if found.len() > 0 {
        assert(satisfied(lines, found[0] as int, guard, context));
    }
}

/// An anchor that one line satisfies, but not the line whose number is given,
/// is refused, and the refusal names the line.
pub proof fn drift_is_loud(
    lines: Seq<Seq<u8>>,
    path: Seq<char>,
    role: Role,
    addressed: nat,
    guard: Seq<char>,
    context: Seq<ContextView>,
    actual: nat,
)
    requires
        guard.len() > 0,
        1 <= addressed <= lines.len(),
        addressed != actual,
        only_match(lines, actual as int, guard, context),
    ensures
        resolution(lines, path, role, Some(addressed), guard, context) == Err::<nat, ErrorView>(
            ErrorView::Drift { role, guard, addressed, actual },
        ),
{
    resolves_to_the_only_match(lines, path, role, None, guard, context, actual);
}

proof fn lemma_digit(digit: nat)
    requires
        digit < 10,
    ensures
        is_digit(digit_char(digit)),
        digit_char(digit) as u32 - '0' as u32 == digit,
{
}

/// A numeral is made of digits and stands for its number.
pub proof fn numerals_read_back(n: nat)
    ensures
        decimal_text(n).len() > 0,
        all_digits(decimal_text(n)),
        digits_value(decimal_text(n)) == n,
    decreases n,
{
    lemma_digit(n % 10);
    if n < 10 {
        assert(decimal_text(n).drop_last() == Seq::<char>::empty());
        reveal_with_fuel(digits_value, 2);
    } else {
        numerals_read_back(n / 10);
        assert(decimal_text(n).drop_last() == decimal_text(n / 10));
    }
}

/// An offset written out is read back as itself.
pub proof fn offsets_read_back(offset: i64)
    ensures
        offset_value(signed_text(offset as int)) == Some(offset),
        forall|i: int|
            0 <= i < signed_text(offset as int).len() ==> #[trigger] signed_text(offset as int)[i]
                != ':',
{
    reveal_strlit("-");
    let text = signed_text(offset as int);
    if offset < 0 {
        numerals_read_back((-offset) as nat);
        assert(text[0] == '-');
        assert(text.skip(1) == decimal_text((-offset) as nat));
        assert forall|i: int| 0 <= i < text.len() implies #[trigger] text[i] != ':' by {
            if i > 0 {
                assert(is_digit(decimal_text((-offset) as nat)[i - 1]));
            }
        }
    } else {
        numerals_read_back(offset as nat);
        assert(is_digit(text[0]));
        assert forall|i: int| 0 <= i < text.len() implies #[trigger] text[i] != ':' by {
            assert(is_digit(text[i]));
        }
    }
}

proof fn lemma_first_index_at<T>(s: Seq<T>, item: T, at: int)
    requires
        0 <= at < s.len(),
        s[at] == item,
        forall|i: int| 0 <= i < at ==> #[trigger] s[i] != item,
    ensures
        first_index(s, item) == at,
{
    lemma_first_index(s, item);
    let found = first_index(s, item) as int;
    if found < at {
        assert(s[found] != item);
    }
}

/// A neighbor anchor written as `offset:guard` is read back as itself, colons
/// in the guard and all.
pub proof fn neighbor_flags_read_back(offset: i64, guard: Seq<char>, role: Role)
    requires
        offset != 0,
        guard.len() > 0,
    ensures
        parsed_flag(signed_text(offset as int) + ":"@ + guard, role) == Ok::<
            ContextView,
            ErrorView,
        >((ContextView { offset: offset as int, guard })),
{
    reveal_strlit(":");
    let number = signed_text(offset as int);
    let raw = number + ":"@ + guard;
    offsets_read_back(offset);
    assert forall|i: int| 0 <= i < number.len() implies #[trigger] raw[i] != ':' by {
        assert(raw[i] == number[i]);
    }
    assert(raw[number.len() as int] == ':');
    lemma_first_index_at(raw, ':', number.len() as int);
    assert(raw.take(number.len() as int) == number);
    assert(raw.skip(number.len() as int + 1) == guard);
}

} // verus!
