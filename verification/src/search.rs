//! Texts, and literal occurrences of one sequence inside another.

use vstd::prelude::*;

use crate::numeral::chars_of;

verus! {

/// The characters of each text.
pub open spec fn texts(items: Seq<String>) -> Seq<Seq<char>> {
    items.map_values(|item: String| item@)
}

/// `needle` stands in `hay` starting at index `at`.
pub open spec fn occurs_at<T>(hay: Seq<T>, needle: Seq<T>, at: int) -> bool {
    &&& 0 <= at
    &&& at + needle.len() <= hay.len()
    &&& hay.subrange(at, at + needle.len()) == needle
}

/// `needle` stands somewhere in `hay`.
pub open spec fn occurs<T>(hay: Seq<T>, needle: Seq<T>) -> bool {
    exists|at: int| occurs_at(hay, needle, at)
}

/// The index of the first `item` in `s`, or the length of `s` where there is
/// none.
pub open spec fn first_index<T>(s: Seq<T>, item: T) -> nat
    decreases s.len(),
{
    if s.len() == 0 || s[0] == item {
        0
    } else {
        1 + first_index(s.skip(1), item)
    }
}

/// What [`first_index`] finds: nothing before it is the item, and it is the
/// item itself unless it is the end.
pub proof fn lemma_first_index<T>(s: Seq<T>, item: T)
    ensures
        first_index(s, item) <= s.len(),
        first_index(s, item) < s.len() ==> s[first_index(s, item) as int] == item,
        forall|i: int| 0 <= i < first_index(s, item) ==> s[i] != item,
    decreases s.len(),
{
    if s.len() > 0 && s[0] != item {
        lemma_first_index(s.skip(1), item);
        assert forall|i: int| 0 <= i < first_index(s, item) implies s[i] != item by {
            if i > 0 {
                assert(s[i] == s.skip(1)[i - 1]);
            }
        }
    }
}

/// What comes before and after the first `mark`, or nothing where there is
/// none.
pub(crate) fn split_once(text: &str, mark: char) -> (parts: Option<(&str, &str)>)
    ensures
        match parts {
            Some((before, after)) => {
                let at = first_index(text@, mark) as int;
                at < text@.len() && before@ == text@.take(at) && after@ == text@.skip(at + 1)
            },
            None => first_index(text@, mark) == text@.len(),
        },
{
    proof {
        lemma_first_index(text@, mark);
    }
    let chars = chars_of(text);
    let mut at: usize = 0;
    while at < chars.len() && chars[at] != mark
        invariant
            chars@ == text@,
            at <= first_index(text@, mark) <= text@.len(),
            first_index(text@, mark) < text@.len() ==> text@[first_index(text@, mark) as int]
                == mark,
            forall|i: int| 0 <= i < first_index(text@, mark) ==> text@[i] != mark,
        ensures
            at == first_index(text@, mark),
        decreases chars@.len() - at,
    {
        at += 1;
    }
    if at == chars.len() {
        return None;
    }
    let before = text.substring_char(0, at);
    let after = text.substring_char(at + 1, chars.len());
    assert(before@ == text@.take(at as int));
    assert(after@ == text@.skip(at + 1));
    Some((before, after))
}

} // verus!
