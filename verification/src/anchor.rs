//! Coordinates: finding the one line that an anchor addresses.

use vstd::prelude::*;
use vstd::utf8::encode_utf8;

use crate::error::{matches_view, result_view, role_text, ErrorView, Role, SpanError};
use crate::lines::{content, logical, rows, Lines};
use crate::numeral::{offset_value, parse_offset};
use crate::outside::{find, quote, quoted_text};
use crate::render::{display_text, shown_text};
use crate::search::{first_index, occurs, split_once, texts};

verus! {

/// A neighbor anchor: a text expected on the line `offset` lines away.
pub struct ContextSpec {
    pub offset: i64,
    pub guard: String,
}

/// A [`ContextSpec`] as a mathematical value.
#[verifier::ext_equal]
pub struct ContextView {
    pub offset: int,
    pub guard: Seq<char>,
}

impl View for ContextSpec {
    type V = ContextView;

    open spec fn view(&self) -> ContextView {
        ContextView { offset: self.offset as int, guard: self.guard@ }
    }
}

/// Neighbor anchors as mathematical values.
pub open spec fn context_view(context: Seq<ContextSpec>) -> Seq<ContextView> {
    context.map_values(|c: ContextSpec| c@)
}

/// An optional line number as a mathematical value.
pub open spec fn number_view(number: Option<usize>) -> Option<nat> {
    match number {
        Some(n) => Some(n as nat),
        None => None,
    }
}

/// Line numbers as mathematical values.
pub open spec fn numbers_view(numbers: Seq<usize>) -> Seq<nat> {
    numbers.map_values(|n: usize| n as nat)
}

/// There is a line `num`, counted from one, and `guard` stands in its content.
pub open spec fn bears(lines: Seq<Seq<u8>>, num: int, guard: Seq<char>) -> bool {
    1 <= num <= lines.len() && occurs(logical(lines[num - 1]), encode_utf8(guard))
}

/// Line `num` bears the guard, and every neighbor anchor is borne by the line
/// it points to.
pub open spec fn satisfied(
    lines: Seq<Seq<u8>>,
    num: int,
    guard: Seq<char>,
    context: Seq<ContextView>,
) -> bool {
    &&& bears(lines, num, guard)
    &&& forall|k: int|
        0 <= k < context.len() ==> #[trigger] bears(
            lines,
            num + context[k].offset,
            context[k].guard,
        )
}

/// The lines among the first `n` that satisfy the anchor, in order.
pub open spec fn matching(
    lines: Seq<Seq<u8>>,
    guard: Seq<char>,
    context: Seq<ContextView>,
    n: int,
) -> Seq<nat>
    decreases n,
{
    if n <= 0 {
        seq![]
    } else if satisfied(lines, n, guard, context) {
        matching(lines, guard, context, n - 1).push(n as nat)
    } else {
        matching(lines, guard, context, n - 1)
    }
}

/// The candidates that an ambiguous anchor lists.
pub open spec fn listed(lines: Seq<Seq<u8>>, found: Seq<nat>) -> Seq<(nat, Seq<char>)> {
    found.map_values(|num: nat| (num, shown_text(lines[num - 1])))
}

/// What a coordinate resolves to: the one line that satisfies the anchor,
/// which must be the addressed line where one is given.
pub open spec fn resolution(
    lines: Seq<Seq<u8>>,
    path: Seq<char>,
    role: Role,
    addressed: Option<nat>,
    guard: Seq<char>,
    context: Seq<ContextView>,
) -> Result<nat, ErrorView> {
    let found = matching(lines, guard, context, lines.len() as int);
    if guard.len() == 0 {
        Err(ErrorView::EmptyGuard { role })
    } else if addressed is Some && !(1 <= addressed->0 <= lines.len()) {
        Err(ErrorView::OutOfRange { role, line: addressed->0, count: lines.len(), path })
    } else if found.len() == 0 {
        Err(ErrorView::GuardNotFound { role, guard, path })
    } else if found.len() > 1 {
        Err(ErrorView::Ambiguous { role, guard, matches: listed(lines, found), path })
    } else if addressed is Some && addressed->0 != found[0] {
        Err(ErrorView::Drift { role, guard, addressed: addressed->0, actual: found[0] })
    } else {
        Ok(found[0])
    }
}

/// Whether line `idx`, counted from one, satisfies the guard and every
/// neighbor anchor. An anchor that points outside the file fails.
pub fn satisfies(lines: &Lines, idx: usize, guard: &str, context: &[ContextSpec]) -> (yes: bool)
    requires
        1 <= idx <= lines@.len(),
    ensures
        yes == satisfied(rows(lines@), idx as int, guard@, context_view(context@)),
{
    if find(content(lines[idx - 1].as_slice()), guard.as_bytes()).is_none() {
        return false;
    }
    let mut k: usize = 0;
    while k < context.len()
        invariant
            k <= context@.len(),
            1 <= idx <= lines@.len(),
            forall|j: int|
                0 <= j < k ==> #[trigger] bears(
                    rows(lines@),
                    idx + context_view(context@)[j].offset,
                    context_view(context@)[j].guard,
                ),
        decreases context@.len() - k,
    {
        let ghost neighbor = context_view(context@)[k as int];
        let target: i128 = idx as i128 + context[k].offset as i128;
        if target < 1 || target > lines.len() as i128 {
            assert(!bears(rows(lines@), idx + neighbor.offset, neighbor.guard));
            return false;
        }
        let at: usize = (target - 1) as usize;
        if find(content(lines[at].as_slice()), context[k].guard.as_str().as_bytes()).is_none() {
            assert(!bears(rows(lines@), idx + neighbor.offset, neighbor.guard));
            return false;
        }
        k += 1;
    }
    true
}

/// Resolves a guarded coordinate against `lines`: exactly one line must satisfy
/// the anchor, and it must be line `addressed` where a number is given.
/// Whatever else is a loud failure.
pub fn resolve(
    lines: &Lines,
    path: &str,
    role: Role,
    addressed: Option<usize>,
    guard: &str,
    context: &[ContextSpec],
) -> (found: Result<usize, SpanError>)
    ensures
        result_view(found) == resolution(
            rows(lines@),
            path@,
            role,
            number_view(addressed),
            guard@,
            context_view(context@),
        ),
{
    if guard.is_empty() {
        return Err(SpanError::EmptyGuard { role });
    }
    let count: usize = lines.len();
    if let Some(n) = addressed {
        if n < 1 || n > count {
            return Err(SpanError::OutOfRange { role, line: n, count, path: path.to_owned() });
        }
    }
    let ghost file = rows(lines@);
    let ghost neighbors = context_view(context@);
    let mut matches: Vec<usize> = Vec::new();
    let mut i: usize = 0;
    while i < count
        invariant
            i <= count == lines@.len(),
            file == rows(lines@),
            neighbors == context_view(context@),
            numbers_view(matches@) == matching(file, guard@, neighbors, i as int),
            forall|k: int| 0 <= k < matches@.len() ==> 1 <= #[trigger] matches@[k] <= i,
        decreases count - i,
    {
        i += 1;
        if satisfies(lines, i, guard, context) {
            matches.push(i);
            assert(numbers_view(matches@) == matching(file, guard@, neighbors, i - 1).push(
                i as nat,
            ));
        }
    }
    let ghost found = matching(file, guard@, neighbors, count as int);
    if matches.len() == 0 {
        return Err(
            SpanError::GuardNotFound { role, guard: guard.to_owned(), path: path.to_owned() },
        );
    }
    if matches.len() == 1 {
        let only: usize = matches[0];
        assert(found[0] == only);
        if let Some(n) = addressed {
            if n != only {
                return Err(
                    SpanError::Drift { role, guard: guard.to_owned(), addressed: n, actual: only },
                );
            }
        }
        return Ok(only);
    }
    let mut candidates: Vec<(usize, String)> = Vec::new();
    let mut k: usize = 0;
    while k < matches.len()
        invariant
            k <= matches@.len(),
            file == rows(lines@),
            numbers_view(matches@) == found,
            forall|j: int| 0 <= j < matches@.len() ==> 1 <= #[trigger] matches@[j] <= lines@.len(),
            matches_view(candidates@) == listed(file, found).take(k as int),
        decreases matches@.len() - k,
    {
        let num: usize = matches[k];
        assert(found[k as int] == num);
        candidates.push((num, display_text(lines[num - 1].as_slice())));
        assert(matches_view(candidates@) == listed(file, found).take(k as int).push(
            listed(file, found)[k as int],
        ));
        assert(listed(file, found).take(k + 1) == listed(file, found).take(k as int).push(
            listed(file, found)[k as int],
        ));
        k += 1;
    }
    assert(listed(file, found).take(k as int) == listed(file, found));
    Err(
        SpanError::Ambiguous {
            role,
            guard: guard.to_owned(),
            matches: candidates,
            path: path.to_owned(),
        },
    )
}

/// What one `offset:guard` flag of a role means: split at the first colon, a
/// non-zero integer before it, a non-empty text after it.
pub open spec fn parsed_flag(raw: Seq<char>, role: Role) -> Result<ContextView, ErrorView> {
    let at = first_index(raw, ':') as int;
    let offset = offset_value(raw.take(at));
    let guard = raw.skip(at + 1);
    if at == raw.len() {
        Err(
            ErrorView::Usage(
                "--"@ + role_text(role) + "-context "@ + quoted_text(raw)
                    + " must be of the form offset:guard"@,
            ),
        )
    } else if offset is None {
        Err(
            ErrorView::Usage(
                "--"@ + role_text(role) + "-context offset "@ + quoted_text(raw.take(at))
                    + " is not an integer"@,
            ),
        )
    } else if offset->0 == 0 {
        Err(ErrorView::Usage("--"@ + role_text(role) + "-context offset must be non-zero"@))
    } else if guard.len() == 0 {
        Err(ErrorView::EmptyGuard { role })
    } else {
        Ok(ContextView { offset: offset->0 as int, guard })
    }
}

/// What all `offset:guard` flags of a role mean: every one of them, or the
/// first error.
pub open spec fn parsed_flags(raw: Seq<Seq<char>>, role: Role) -> Result<
    Seq<ContextView>,
    ErrorView,
>
    decreases raw.len(),
{
    if raw.len() == 0 {
        Ok(seq![])
    } else {
        match parsed_flags(raw.drop_last(), role) {
            Err(error) => Err(error),
            Ok(earlier) => match parsed_flag(raw.last(), role) {
                Err(error) => Err(error),
                Ok(entry) => Ok(earlier.push(entry)),
            },
        }
    }
}

/// An error among the first flags is the error of all of them.
proof fn lemma_first_error(raw: Seq<Seq<char>>, role: Role, n: int)
    requires
        0 <= n <= raw.len(),
        parsed_flags(raw.take(n), role) is Err,
    ensures
        parsed_flags(raw, role) == parsed_flags(raw.take(n), role),
    decreases raw.len() - n,
{
    if n < raw.len() {
        assert(raw.take(n + 1).drop_last() == raw.take(n));
        lemma_first_error(raw, role, n + 1);
    } else {
        assert(raw.take(n) == raw);
    }
}

/// Reads one `offset:guard` flag.
fn parse_flag(raw: &str, role: Role) -> (entry: Result<ContextSpec, SpanError>)
    ensures
        match entry {
            Ok(spec) => parsed_flag(raw@, role) == Ok::<ContextView, ErrorView>(spec@),
            Err(error) => parsed_flag(raw@, role) == Err::<ContextView, ErrorView>(error@),
        },
{
    match split_once(raw, ':') {
        None => {
            let mut s = "--".to_owned();
            s.append(role.as_str());
            s.append("-context ");
            s.append(quote(raw).as_str());
            s.append(" must be of the form offset:guard");
            Err(SpanError::Usage(s))
        },
        Some((before, guard)) => match parse_offset(before) {
            None => {
                let mut s = "--".to_owned();
                s.append(role.as_str());
                s.append("-context offset ");
                s.append(quote(before).as_str());
                s.append(" is not an integer");
                Err(SpanError::Usage(s))
            },
            Some(offset) => {
                if offset == 0 {
                    let mut s = "--".to_owned();
                    s.append(role.as_str());
                    s.append("-context offset must be non-zero");
                    Err(SpanError::Usage(s))
                } else if guard.is_empty() {
                    Err(SpanError::EmptyGuard { role })
                } else {
                    Ok(ContextSpec { offset, guard: guard.to_owned() })
                }
            },
        },
    }
}

/// Reads the `offset:guard` flags of a role. A malformed flag or a zero offset
/// is a usage error; an empty guard is the same failure as anywhere else.
pub fn parse_context(specs: &[String], role: Role) -> (context: Result<Vec<ContextSpec>, SpanError>)
    ensures
        match context {
            Ok(entries) => parsed_flags(texts(specs@), role) == Ok::<Seq<ContextView>, ErrorView>(
                context_view(entries@),
            ),
            Err(error) => parsed_flags(texts(specs@), role) == Err::<Seq<ContextView>, ErrorView>(
                error@,
            ),
        },
{
    let ghost raw = texts(specs@);
    let mut out: Vec<ContextSpec> = Vec::new();
    let mut i: usize = 0;
    assert(raw.take(0) == Seq::<Seq<char>>::empty());
    assert(context_view(out@) == Seq::<ContextView>::empty());
    while i < specs.len()
        invariant
            i <= specs@.len(),
            raw == texts(specs@),
            parsed_flags(raw.take(i as int), role) == Ok::<Seq<ContextView>, ErrorView>(
                context_view(out@),
            ),
        decreases specs@.len() - i,
    {
        assert(raw.take(i + 1).drop_last() == raw.take(i as int));
        assert(raw.take(i + 1).last() == specs@[i as int]@);
        match parse_flag(specs[i].as_str(), role) {
            Ok(entry) => {
                let ghost earlier = context_view(out@);
                out.push(entry);
                assert(context_view(out@) == earlier.push(entry@));
            },
            Err(error) => {
                proof {
                    lemma_first_error(raw, role, i + 1);
                }
                return Err(error);
            },
        }
        i += 1;
    }
    assert(raw.take(i as int) == raw);
    Ok(out)
}

} // verus!
