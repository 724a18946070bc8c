//! The commands that the hook suggests: coordinates that resolve on the first
//! try, and the words around them.

use vstd::prelude::*;
use vstd::utf8::encode_utf8;

use crate::candidate::Candidate;
use crate::numeral::{decimal, decimal_text, signed_decimal, signed_text};
use crate::outside::{find, quote, quoted_text};
use crate::search::{occurs, occurs_at, texts};
use crate::text::{logical_lines, same_text, slices, split_logical, trim, trimmed};
use crate::twin::{
    find_in_text, fits_at, hits_in, hits_view, lemma_starts, occurrences, stands_at, Hit,
};

verus! {

/// The longest guard that is suggested, in characters.
pub const MAX_GUARD_CHARS: usize = 60;

/// What stands in place of a guard for a blank line, which can anchor nothing.
pub const BLANK_GUARD_HINT: &'static str = "<pick a distinctive line>";

/// A verbatim occurrence of a block, as the hook reports it.
pub struct Twin {
    /// The path as it is shown.
    pub path: String,
    /// The line, counted from one, at which the block starts.
    pub start: usize,
    /// Whether it stands in the very file that is being edited.
    pub edited: bool,
}

/// A suggested anchor: a guard, and a neighbor anchor where the guard alone is
/// not unique.
pub struct Anchor {
    pub guard: String,
    pub context: Option<(i64, String)>,
}

/// An [`Anchor`] as a mathematical value.
#[verifier::ext_equal]
pub struct AnchorView {
    pub guard: Seq<char>,
    pub context: Option<(int, Seq<char>)>,
}

/// A neighbor anchor as a mathematical value.
pub open spec fn neighbor_view(context: Option<(i64, String)>) -> Option<(int, Seq<char>)> {
    match context {
        Some((offset, guard)) => Some((offset as int, guard@)),
        None => None,
    }
}

impl View for Anchor {
    type V = AnchorView;

    open spec fn view(&self) -> AnchorView {
        AnchorView { guard: self.guard@, context: neighbor_view(self.context) }
    }
}

/// An optional text slice as a mathematical value.
pub open spec fn slice_view(text: Option<&str>) -> Option<Seq<char>> {
    match text {
        Some(text) => Some(text@),
        None => None,
    }
}

/// The guard for a line: its text without whitespace at the ends, cut to a
/// readable length.
pub open spec fn guard_of(line: Seq<char>) -> Seq<char> {
    let text = trimmed(line);
    if text.len() == 0 {
        BLANK_GUARD_HINT@
    } else if text.len() > MAX_GUARD_CHARS {
        text.take(MAX_GUARD_CHARS as int)
    } else {
        text
    }
}

/// The guard stands in the line, byte for byte.
pub open spec fn holds(line: Seq<char>, guard: Seq<char>) -> bool {
    occurs(encode_utf8(line), encode_utf8(guard))
}

/// The line at index `at` holds the guard, and the line that the neighbor
/// anchor points to holds that.
pub open spec fn anchored(
    lines: Seq<Seq<char>>,
    at: int,
    guard: Seq<char>,
    context: Option<(int, Seq<char>)>,
) -> bool {
    &&& holds(lines[at], guard)
    &&& context matches Some((offset, text)) ==> 0 <= at + offset < lines.len() && holds(
        lines[at + offset],
        text,
    )
}

/// How many of the first `n` lines are anchored.
pub open spec fn anchored_count(
    lines: Seq<Seq<char>>,
    guard: Seq<char>,
    context: Option<(int, Seq<char>)>,
    n: int,
) -> nat
    decreases n,
{
    if n <= 0 {
        0
    } else {
        anchored_count(lines, guard, context, n - 1) + if anchored(lines, n - 1, guard, context) {
            1nat
        } else {
            0
        }
    }
}

/// The neighbor anchor that the line `offset` lines from index `at` gives.
pub open spec fn neighbor(lines: Seq<Seq<char>>, at: int, offset: int) -> Option<(int, Seq<char>)> {
    Some((offset, guard_of(lines[at + offset])))
}

/// That neighbor exists, is not blank, and leaves exactly one line anchored.
pub open spec fn decisive(
    lines: Seq<Seq<char>>,
    at: int,
    guard: Seq<char>,
    offset: int,
) -> bool {
    &&& 0 <= at + offset < lines.len()
    &&& guard_of(lines[at + offset]) != BLANK_GUARD_HINT@
    &&& anchored_count(lines, guard, neighbor(lines, at, offset), lines.len() as int) == 1
}

/// An offset of magnitude `m` in the given direction.
pub open spec fn toward(dir: int, m: int) -> int {
    if dir > 0 {
        m
    } else {
        -m
    }
}

/// The offset of the nearest decisive neighbor further away than `m` lines and
/// no further than `limit`; of two equally near ones, that in direction `dir`.
pub open spec fn nearest(
    lines: Seq<Seq<char>>,
    at: int,
    guard: Seq<char>,
    dir: int,
    m: int,
    limit: int,
) -> Option<int>
    decreases limit - m,
{
    if m >= limit {
        None
    } else if decisive(lines, at, guard, toward(dir, m + 1)) {
        Some(toward(dir, m + 1))
    } else if decisive(lines, at, guard, toward(-dir, m + 1)) {
        Some(toward(-dir, m + 1))
    } else {
        nearest(lines, at, guard, dir, m + 1, limit)
    }
}

/// How far away a neighbor is looked for: through the whole file, as far as
/// offsets go.
pub open spec fn reach(lines: Seq<Seq<char>>) -> int {
    if lines.len() < i64::MAX {
        lines.len() as int
    } else {
        i64::MAX as int
    }
}

/// The anchor for the line at index `at`: its guard where that is unique, with
/// the nearest decisive neighbor where it is not.
pub open spec fn anchor_of(lines: Seq<Seq<char>>, at: int, dir: int) -> AnchorView {
    let guard = guard_of(lines[at]);
    if guard == BLANK_GUARD_HINT@ || anchored_count(lines, guard, None, lines.len() as int) <= 1 {
        AnchorView { guard, context: None }
    } else {
        match nearest(lines, at, guard, dir, 0, reach(lines)) {
            Some(offset) => AnchorView { guard, context: neighbor(lines, at, offset) },
            None => AnchorView { guard, context: None },
        }
    }
}

/// The anchor for a line whose file is not at hand.
pub open spec fn plain_anchor(line: Seq<char>) -> AnchorView {
    AnchorView { guard: guard_of(line), context: None }
}

/// The anchors for both ends of a block that starts at line `start` of a text,
/// counted from one. Without the text, or where the block does not stand
/// there, they are plain.
pub open spec fn end_anchors(block: Seq<Seq<char>>, start: int, text: Option<Seq<char>>) -> (
    AnchorView,
    AnchorView,
) {
    match text {
        Some(text) if occurs_at(logical_lines(text), block, start - 1) => (
            anchor_of(logical_lines(text), start - 1, 1),
            anchor_of(logical_lines(text), start - 2 + block.len(), -1),
        ),
        _ => (plain_anchor(block[0]), plain_anchor(block.last())),
    }
}

/// The flag for a neighbor anchor, given its value in quotation marks, or
/// nothing.
pub open spec fn flag_quoting(role: Seq<char>, quoted: Option<Seq<char>>) -> Seq<char> {
    match quoted {
        Some(value) => " --"@ + role + "-context "@ + value,
        None => seq![],
    }
}

/// The flag for a neighbor anchor, or nothing.
pub open spec fn flag_text(role: Seq<char>, context: Option<(int, Seq<char>)>) -> Seq<char> {
    match context {
        Some((offset, guard)) => flag_quoting(
            role,
            Some(quoted_text(signed_text(offset) + ":"@ + guard)),
        ),
        None => flag_quoting(role, None),
    }
}

/// `out`, followed by the flags for both ends of a span.
pub open spec fn with_coordinates(
    out: Seq<char>,
    from: nat,
    to: nat,
    anchors: (AnchorView, AnchorView),
) -> Seq<char> {
    out + " --from "@ + decimal_text(from) + " --from-guard "@ + quoted_text(anchors.0.guard)
        + flag_text("from"@, anchors.0.context) + " --to "@ + decimal_text(to) + " --to-guard "@
        + quoted_text(anchors.1.guard) + flag_text("to"@, anchors.1.context)
}

/// The reason given for refusing an insertion: the block exists already, and
/// this command relocates it. `dest` is the file being edited.
pub open spec fn insertion_reason(
    block: Seq<Seq<char>>,
    path: Seq<char>,
    start: nat,
    text: Option<Seq<char>>,
    dest: Option<Seq<char>>,
) -> Seq<char> {
    let n = block.len();
    let last = (start + n - 1) as nat;
    let head = "This "@ + decimal_text(n) + "-line block already exists verbatim at "@ + path
        + ":"@ + decimal_text(start) + "-"@ + decimal_text(last)
        + ". Re-emitting it through the string editor risks silent corruption and carries the bytes as input on every later turn. Relocate it by reference with span instead:\n\n  span move "@
        + path;
    let placed = with_coordinates(head, start, last, end_anchors(block, start as int, text))
        + " --dest <LINE> --dest-guard \"<TEXT ON DEST LINE>\" --after"@;
    let command = match dest {
        Some(shown) => placed + " --dest-file "@ + shown,
        None => placed,
    };
    command
        + "\n\nFill in --dest/--dest-guard for the insertion point (choose --before or --after), and use `span copy` (same flags) if you are duplicating rather than moving."@
}

/// The reason given for refusing a deletion: the two commands that relocate
/// the block or delete it. `twin` is another place where the block stands.
pub open spec fn deletion_reason(
    block: Seq<Seq<char>>,
    path: Seq<char>,
    start: nat,
    text: Seq<char>,
    twin: Option<Seq<char>>,
) -> Seq<char> {
    let n = block.len();
    let last = (start + n - 1) as nat;
    let anchors = end_anchors(block, start as int, Some(text));
    let opening = "Deleting this "@ + decimal_text(n)
        + "-line block through the string editor forces you to reproduce all "@ + decimal_text(n)
        + " lines verbatim in old_string — the same re-emit cost and corruption risk span removes."@;
    let noted = match twin {
        Some(place) => opening + " It also appears verbatim at "@ + place
            + ", so this looks like the source half of a move."@,
        None => opening,
    };
    let relocating = with_coordinates(
        noted + " Do it by reference instead:\n\n  Relocating it? →\n    span move "@ + path,
        start,
        last,
        anchors,
    ) + " --dest <LINE> --dest-guard \"<TEXT ON DEST LINE>\" --after"@;
    with_coordinates(
        relocating + "\n\n  Genuinely deleting it? →\n    span move "@ + path,
        start,
        last,
        anchors,
    ) + " --force"@
        + "\n\nThe delete form requires --force as a deliberate acknowledgment; deletes run via `span … --force` go through your shell and are not interrupted by this hook."@
}

/// A guard for a line: trimmed, and cut to a readable length. A blank line
/// gets a placeholder.
pub fn guard_for(line: &str) -> (guard: String)
    ensures
        guard@ == guard_of(line@),
{
    let text = trim(line);
    if text.is_empty() {
        return BLANK_GUARD_HINT.to_owned();
    }
    if text.unicode_len() > MAX_GUARD_CHARS {
        text.substring_char(0, MAX_GUARD_CHARS).to_owned()
    } else {
        text.to_owned()
    }
}

/// Whether the guard stands in the line.
fn contains(line: &str, guard: &str) -> (yes: bool)
    ensures
        yes == holds(line@, guard@),
{
    find(line.as_bytes(), guard.as_bytes()).is_some()
}

/// Whether the line at index `at` is anchored.
fn is_anchored(lines: &[&str], at: usize, guard: &str, context: &Option<(i64, String)>) -> (yes:
    bool)
    requires
        at < lines@.len(),
    ensures
        yes == anchored(slices(lines@), at as int, guard@, neighbor_view(*context)),
{
    if !contains(lines[at], guard) {
        return false;
    }
    match context {
        None => true,
        Some((offset, text)) => {
            let target: i128 = at as i128 + *offset as i128;
            0 <= target && target < lines.len() as i128 && contains(
                lines[target as usize],
                text.as_str(),
            )
        },
    }
}

/// Counts the anchored lines.
fn count_anchored(lines: &[&str], guard: &str, context: &Option<(i64, String)>) -> (count: usize)
    ensures
        count == anchored_count(
            slices(lines@),
            guard@,
            neighbor_view(*context),
            lines@.len() as int,
        ),
{
    let mut count: usize = 0;
    let mut i: usize = 0;
    while i < lines.len()
        invariant
            count <= i <= lines@.len(),
            count == anchored_count(slices(lines@), guard@, neighbor_view(*context), i as int),
        decreases lines@.len() - i,
    {
        if is_anchored(lines, i, guard, context) {
            count += 1;
        }
        i += 1;
    }
    count
}

/// The neighbor anchor at `offset`, where it is decisive.
fn try_neighbor(lines: &[&str], at: usize, guard: &str, offset: i64) -> (context: Option<
    (i64, String),
>)
    requires
        at < lines@.len(),
    ensures
        match context {
            Some(_) => decisive(slices(lines@), at as int, guard@, offset as int)
                && neighbor_view(context) == neighbor(slices(lines@), at as int, offset as int),
            None => !decisive(slices(lines@), at as int, guard@, offset as int),
        },
{
    let target: i128 = at as i128 + offset as i128;
    if target < 0 || target >= lines.len() as i128 {
        return None;
    }
    let text = guard_for(lines[target as usize]);
    if same_text(text.as_str(), BLANK_GUARD_HINT) {
        return None;
    }
    let context = Some((offset, text));
    if count_anchored(lines, guard, &context) == 1 {
        context
    } else {
        None
    }
}

/// An anchor for the line at index `idx` that resolves to that line alone,
/// where there is one: the guard, or the guard with the nearest neighbor that
/// makes it unique. `inside_dir` is the direction in which the rest of the
/// block lies; of two neighbors equally near, the one inside the block, which
/// moves with it, is taken.
pub fn unique_anchor(lines: &[&str], idx: usize, inside_dir: i64) -> (anchor: Anchor)
    requires
        idx < lines@.len(),
        inside_dir == 1 || inside_dir == -1,
    ensures
        anchor@ == anchor_of(slices(lines@), idx as int, inside_dir as int),
{
    let ghost file = slices(lines@);
    let guard = guard_for(lines[idx]);
    if same_text(guard.as_str(), BLANK_GUARD_HINT) || count_anchored(lines, guard.as_str(), &None)
        <= 1 {
        return Anchor { guard, context: None };
    }
    let limit: i64 = if (lines.len() as i128) < i64::MAX as i128 {
        lines.len() as i64
    } else {
        i64::MAX
    };
    let mut m: i64 = 0;
    while m < limit
        invariant
            0 <= m <= limit == reach(file),
            idx < lines@.len(),
            inside_dir == 1 || inside_dir == -1,
            file == slices(lines@),
            guard@ == guard_of(file[idx as int]),
            anchor_of(file, idx as int, inside_dir as int) == match nearest(
                file,
                idx as int,
                guard@,
                inside_dir as int,
                m as int,
                limit as int,
            ) {
                Some(offset) => AnchorView {
                    guard: guard@,
                    context: neighbor(file, idx as int, offset),
                },
                None => AnchorView { guard: guard@, context: None },
            },
        decreases limit - m,
    {
        m += 1;
        let inside: i64 = if inside_dir > 0 { m } else { -m };
        if let Some(context) = try_neighbor(lines, idx, guard.as_str(), inside) {
            return Anchor { guard, context: Some(context) };
        }
        let outside: i64 = if inside_dir > 0 { -m } else { m };
        if let Some(context) = try_neighbor(lines, idx, guard.as_str(), outside) {
            return Anchor { guard, context: Some(context) };
        }
    }
    Anchor { guard, context: None }
}

/// The flag ` --<role>-context "offset:guard"` for a neighbor anchor, or
/// nothing.
pub fn context_flag(role: &str, ctx: &Option<(i64, String)>) -> (flag: String)
    ensures
        flag@ == flag_text(role@, neighbor_view(*ctx)),
{
    match ctx {
        Some((offset, guard)) => {
            let mut value = signed_decimal(*offset);
            value.append(":");
            value.append(guard.as_str());
            context_flag_with(role, Some(quote(value.as_str()).as_str()))
        },
        None => context_flag_with(role, None),
    }
}

/// The flag ` --<role>-context` with its value, which is given in quotation
/// marks, or nothing.
pub fn context_flag_with(role: &str, quoted: Option<&str>) -> (flag: String)
    ensures
        flag@ == flag_quoting(role@, slice_view(quoted)),
{
    match quoted {
        Some(value) => {
            let mut flag = " --".to_owned();
            flag.append(role);
            flag.append("-context ");
            flag.append(value);
            flag
        },
        None => String::new(),
    }
}

/// Anchors for both ends of a block found at line `start` of a file with the
/// given text. Where the file cannot be read, or the block does not stand
/// there, they are the plain guards of the block's own ends.
pub fn resolve_endpoint_guards(block: &[String], start: usize, text: Option<&str>) -> (ends: (
    Anchor,
    Anchor,
))
    requires
        block@.len() > 0,
        start >= 1,
    ensures
        (ends.0@, ends.1@) == end_anchors(texts(block@), start as int, slice_view(text)),
{
    let n: usize = block.len();
    if let Some(text) = text {
        let lines = split_logical(text);
        if start - 1 <= lines.len() && n <= lines.len() - (start - 1) && stands_at(
            &lines,
            block,
            start - 1,
        ) {
            return (
                unique_anchor(lines.as_slice(), start - 1, 1),
                unique_anchor(lines.as_slice(), start - 1 + (n - 1), -1),
            );
        }
        assert(!occurs_at(logical_lines(text@), texts(block@), start - 1));
    }
    (
        Anchor { guard: guard_for(block[0].as_str()), context: None },
        Anchor { guard: guard_for(block[n - 1].as_str()), context: None },
    )
}

/// Adds the flags for both ends of a span.
fn push_coordinates(out: &mut String, from: usize, to: usize, ends: &(Anchor, Anchor))
    ensures
        final(out)@ == with_coordinates(old(out)@, from as nat, to as nat, (ends.0@, ends.1@)),
{
    out.append(" --from ");
    out.append(decimal(from as u64).as_str());
    out.append(" --from-guard ");
    out.append(quote(ends.0.guard.as_str()).as_str());
    out.append(context_flag("from", &ends.0.context).as_str());
    out.append(" --to ");
    out.append(decimal(to as u64).as_str());
    out.append(" --to-guard ");
    out.append(quote(ends.1.guard.as_str()).as_str());
    out.append(context_flag("to", &ends.1.context).as_str());
}

/// The reason for refusing to insert a block that stands at `twin`, in a file
/// with the given text: what is wrong with it, and the command to use instead.
/// Where the block goes is left open. `dest` is the file being edited, where
/// that is known; it is named where it is not the twin's own.
pub fn deny_reason(
    block: &[String],
    twin: &Twin,
    text: Option<&str>,
    dest: Option<&str>,
) -> (reason: String)
    requires
        block@.len() > 0,
        fits_at(twin.start, block@.len()),
    ensures
        reason@ == insertion_reason(
            texts(block@),
            twin.path@,
            twin.start as nat,
            slice_view(text),
            if twin.edited {
                None
            } else {
                slice_view(dest)
            },
        ),
{
    assert(texts(block@).len() == block@.len());
    let n: usize = block.len();
    let last: usize = twin.start - 1 + n;
    let path = twin.path.as_str();
    let ends = resolve_endpoint_guards(block, twin.start, text);
    let mut s = "This ".to_owned();
    s.append(decimal(n as u64).as_str());
    s.append("-line block already exists verbatim at ");
    s.append(path);
    s.append(":");
    s.append(decimal(twin.start as u64).as_str());
    s.append("-");
    s.append(decimal(last as u64).as_str());
    s.append(
        ". Re-emitting it through the string editor risks silent corruption and carries the bytes as input on every later turn. Relocate it by reference with span instead:\n\n  span move ",
    );
    s.append(path);
    push_coordinates(&mut s, twin.start, last, &ends);
    s.append(" --dest <LINE> --dest-guard \"<TEXT ON DEST LINE>\" --after");
    if !twin.edited {
        if let Some(shown) = dest {
            s.append(" --dest-file ");
            s.append(shown);
        }
    }
    s.append(
        "\n\nFill in --dest/--dest-guard for the insertion point (choose --before or --after), and use `span copy` (same flags) if you are duplicating rather than moving.",
    );
    s
}

/// The one place where a block stands in a text, if there is exactly one.
pub open spec fn sole_occurrence(text: Seq<char>, block: Seq<Seq<char>>) -> Option<nat> {
    if occurrences(text, block).len() == 1 {
        Some(occurrences(text, block)[0])
    } else {
        None
    }
}

/// The reason for refusing to delete a block of the file shown as `path` with
/// the given text: the command that relocates it, and the one that deletes it.
/// Where the file cannot be read, or the block does not stand in it exactly
/// once, there is none: a command could address the wrong copy.
pub fn delete_fork_reason(
    candidate: &Candidate,
    twin: Option<&str>,
    path: &str,
    text: Option<&str>,
) -> (reason: Option<String>)
    ensures
        match reason {
            Some(reason) => text matches Some(text) && sole_occurrence(
                text@,
                candidate@.block,
            ) matches Some(start) && reason@ == deletion_reason(
                candidate@.block,
                path@,
                start,
                text@,
                slice_view(twin),
            ),
            None => text matches Some(text) ==> sole_occurrence(text@, candidate@.block) is None,
        },
{
    let text = match text {
        None => return None,
        Some(text) => text,
    };
    let block = candidate.block.as_slice();
    let ghost wanted = texts(block@);
    assert(wanted.len() == block@.len());
    let mut hits: Vec<Hit> = Vec::new();
    assert(hits_view(hits@) + hits_in(path@, text@, wanted) == hits_in(path@, text@, wanted));
    find_in_text(text, block, path, &mut hits);
    assert(hits_view(hits@).len() == occurrences(text@, wanted).len());
    if hits.len() != 1 {
        return None;
    }
    let start: usize = hits[0].start;
    proof {
        assert(hits_view(hits@)[0].1 == occurrences(text@, wanted)[0]);
        lemma_starts(logical_lines(text@), wanted, logical_lines(text@).len() as int);
    }
    let n: usize = block.len();
    let last: usize = start - 1 + n;
    let ends = resolve_endpoint_guards(block, start, Some(text));
    let mut s = "Deleting this ".to_owned();
    s.append(decimal(n as u64).as_str());
    s.append("-line block through the string editor forces you to reproduce all ");
    s.append(decimal(n as u64).as_str());
    s.append(
        " lines verbatim in old_string — the same re-emit cost and corruption risk span removes.",
    );
    if let Some(place) = twin {
        s.append(" It also appears verbatim at ");
        s.append(place);
        s.append(", so this looks like the source half of a move.");
    }
    s.append(" Do it by reference instead:\n\n  Relocating it? →\n    span move ");
    s.append(path);
    push_coordinates(&mut s, start, last, &ends);
    s.append(" --dest <LINE> --dest-guard \"<TEXT ON DEST LINE>\" --after");
    s.append("\n\n  Genuinely deleting it? →\n    span move ");
    s.append(path);
    push_coordinates(&mut s, start, last, &ends);
    s.append(" --force");
    s.append(
        "\n\nThe delete form requires --force as a deliberate acknowledgment; deletes run via `span … --force` go through your shell and are not interrupted by this hook.",
    );
    Some(s)
}

} // verus!
