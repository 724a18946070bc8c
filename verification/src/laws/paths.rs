//! Paths: their components, and the texts that have them.

use vstd::prelude::*;

use crate::hook::shown_below;
use crate::laws::vocabulary::first_is_first;
use crate::path::{
    below, components, dot, ends_in_component, from_component, from_name, head_name, names,
    past_name, portable, rooted,
};
use crate::search::{first_index, lemma_first_index};

verus! {

/// A path without components is the empty text.
pub proof fn no_components_no_text(path: Seq<char>)
    requires
        components(path).len() == 0,
    ensures
        path.len() == 0,
{
    if path.len() > 0 {
        lemma_first_index(path, '/');
    }
}

proof fn lemma_from_name(body: Seq<char>, k: int)
    requires
        0 <= k <= names(body).len(),
    ensures
        ({
            let rest = from_name(body, k);
            &&& names(rest) == names(body).skip(k)
            &&& !rooted(rest)
            &&& !dot(head_name(rest))
        }),
    decreases body.len(),
{
    if body.len() > 0 {
        let name = head_name(body);
        lemma_first_index(body, '/');
        if name.len() == 0 || dot(name) {
            lemma_from_name(past_name(body), k);
        } else if k == 0 {
            assert(names(body).skip(0) == names(body));
            assert(name[0] == body[0]);
        } else {
            lemma_from_name(past_name(body), k - 1);
            assert(names(body).skip(k) == names(past_name(body)).skip(k - 1));
        }
    } else {
        assert(names(body).skip(k) == names(body));
    }
}

/// The text of a path from one of its components on has the components from
/// there on.
pub proof fn later_text_has_later_components(path: Seq<char>, n: int)
    requires
        0 <= n <= components(path).len(),
    ensures
        components(from_component(path, n)) == components(path).skip(n),
{
    if n == 0 {
        assert(components(path).skip(0) == components(path));
    } else if rooted(path) {
        lemma_from_name(path.skip(1), n - 1);
        assert(components(path).skip(n) == names(path.skip(1)).skip(n - 1));
    } else if dot(head_name(path)) {
        lemma_from_name(past_name(path), n - 1);
        assert(components(path).skip(n) == names(past_name(path)).skip(n - 1));
    } else {
        lemma_from_name(path, n);
    }
}

/// What stands before a `/` and behind it has its names one after the other.
proof fn lemma_names_join(a: Seq<char>, b: Seq<char>)
    ensures
        names(a.push('/') + b) == names(a) + names(b),
        from_name(a.push('/') + b, names(a).len() as int) == from_name(b, 0),
    decreases a.len(),
{
    let body = a.push('/') + b;
    let i = first_index(a, '/') as int;
    lemma_first_index(a, '/');
    assert(body[a.len() as int] == '/');
    assert forall|j: int| 0 <= j < i implies #[trigger] body[j] != '/' by {
        assert(body[j] == a[j]);
    }
    first_is_first(body, '/', i);
    assert(body.take(i) =~= a.take(i));
    assert(head_name(body) == a.take(i));
    if i < a.len() {
        let rest = a.skip(i + 1);
        assert(body.skip(i + 1) =~= rest.push('/') + b);
        lemma_names_join(rest, b);
        let name = a.take(i);
        if name.len() == 0 || dot(name) {
            assert(names(body) == names(rest) + names(b));
        } else {
            assert(seq![name] + (names(rest) + names(b)) =~= seq![name] + names(rest) + names(b));
        }
    } else {
        assert(body.skip(i + 1) =~= b);
        assert(a.take(i) =~= a);
        if a.len() == 0 || dot(a) {
            if a.len() > 0 {
                assert(head_name(a) == a);
                assert(names(past_name(a)) == Seq::<Seq<char>>::empty());
            }
            assert(names(a) =~= Seq::<Seq<char>>::empty());
            assert(names(a) + names(b) =~= names(b));
        } else {
            assert(head_name(a) == a);
            assert(names(past_name(a)) == Seq::<Seq<char>>::empty());
            assert(names(a) =~= seq![a]);
        }
    }
}

/// The text starts with a name: not with a `/`, and not with a `.` that is all
/// of a name.
pub open spec fn starts_with_name(text: Seq<char>) -> bool {
    &&& text.len() > 0
    &&& text[0] != '/'
    &&& text[0] == '.' ==> text.len() > 1 && text[1] != '/'
}

proof fn lemma_starts_with_name(text: Seq<char>)
    requires
        starts_with_name(text),
    ensures
        head_name(text).len() > 0,
        !dot(head_name(text)),
        from_name(text, 0) == text,
{
    lemma_first_index(text, '/');
    let i = first_index(text, '/') as int;
    if i == 0 {
        assert(text[0] == '/');
    }
    if i == 1 && text.len() > 1 {
        assert(text[1] == '/');
    }
    assert(head_name(text)[0] == text[0]);
}

/// A path below another has its components and then its own names.
proof fn lemma_components_join(root: Seq<char>, rest: Seq<char>)
    requires
        root.len() > 0,
        portable(root.push('/') + rest),
    ensures
        portable(root),
        components(root.push('/') + rest) == components(root) + names(rest),
        starts_with_name(rest) ==> from_component(
            root.push('/') + rest,
            components(root).len() as int,
        ) == rest,
{
    let path = root.push('/') + rest;
    assert forall|i: int| 0 <= i < root.len() implies #[trigger] root[i] != '\\' by {
        assert(path[i] == root[i]);
    }
    assert(path[0] == root[0]);
    if root.len() >= 2 {
        assert(path[1] == root[1]);
    }
    lemma_first_index(root, '/');
    let i = first_index(root, '/') as int;
    assert forall|j: int| 0 <= j < i implies #[trigger] path[j] != '/' by {
        assert(path[j] == root[j]);
    }
    assert(path[root.len() as int] == '/');
    if i < root.len() {
        assert(path[i] == root[i]);
    }
    first_is_first(path, '/', i);
    assert(path.take(i) =~= root.take(i));
    if starts_with_name(rest) {
        lemma_starts_with_name(rest);
    }
    if rooted(root) {
        let body = root.skip(1);
        assert(path.skip(1) =~= body.push('/') + rest);
        lemma_names_join(body, rest);
        assert(components(path) =~= components(root) + names(rest));
    } else if dot(head_name(root)) {
        if i < root.len() {
            let body = root.skip(i + 1);
            assert(path.skip(i + 1) =~= body.push('/') + rest);
            lemma_names_join(body, rest);
            assert(past_name(path) == body.push('/') + rest);
            assert(components(path) =~= components(root) + names(rest));
        } else {
            assert(path.skip(i + 1) =~= rest);
            assert(names(past_name(root)) == Seq::<Seq<char>>::empty());
            assert(components(path) =~= components(root) + names(rest));
        }
    } else {
        lemma_names_join(root, rest);
        if names(root).len() == 0 {
            lemma_some_name(root);
        }
    }
}

/// A text that starts with a name has one.
proof fn lemma_some_name(text: Seq<char>)
    requires
        text.len() > 0,
        text[0] != '/',
        !dot(head_name(text)),
    ensures
        names(text).len() > 0,
{
    lemma_first_index(text, '/');
    assert(head_name(text).len() > 0) by {
        if first_index(text, '/') == 0 {
            assert(text[0] == '/');
        }
    }
}

/// A path that is a root, a `/` and a rest is shown as the rest, where this
/// starts and ends with a name.
pub proof fn paths_below_the_root_are_shown_without_it(
    root: Seq<char>,
    rest: Seq<char>,
    shown: Seq<char>,
)
    requires
        root.len() > 0,
        portable(root.push('/') + rest),
        starts_with_name(rest),
        ends_in_component(rest),
        shown_below(root.push('/') + rest, root, shown),
    ensures
        shown == rest,
{
    let path = root.push('/') + rest;
    let n = components(root).len() as int;
    lemma_components_join(root, rest);
    assert(components(path).take(n) =~= components(root));
    assert(below(path, root));
    let m = path.len() as int;
    assert(path[m - 1] == rest[rest.len() - 1]);
    if rest.len() > 1 {
        assert(path[m - 2] == rest[rest.len() - 2]);
    } else {
        assert(rest[0] != '.');
    }
    assert(ends_in_component(path));
}

/// A name stands in front of what follows it.
proof fn lemma_one_name(name: Seq<char>, tail: Seq<char>)
    requires
        starts_with_name(name),
        !name.contains('/'),
        tail.len() > 0 ==> tail[0] == '/',
    ensures
        names(name + tail).len() > 0,
        names(name + tail)[0] == name,
{
    let body = name + tail;
    let n = name.len() as int;
    assert forall|j: int| 0 <= j < n implies #[trigger] body[j] != '/' by {
        assert(body[j] == name[j]);
        assert(name.contains(name[j]));
    }
    if tail.len() > 0 {
        assert(body[n] == '/');
    }
    first_is_first(body, '/', n);
    assert(body.take(n) =~= name);
    assert(!dot(name)) by {
        if name.len() == 1 {
            assert(name[0] != '.');
        }
    }
}

/// Below the same place, a path that goes on with another name than the root is
/// shown in full.
pub proof fn paths_elsewhere_are_shown_in_full(
    base: Seq<char>,
    name: Seq<char>,
    tail: Seq<char>,
    other: Seq<char>,
    end: Seq<char>,
    shown: Seq<char>,
)
    requires
        base.len() > 0,
        starts_with_name(name),
        starts_with_name(other),
        !name.contains('/'),
        !other.contains('/'),
        name != other,
        tail.len() > 0 ==> tail[0] == '/',
        end.len() > 0 ==> end[0] == '/',
        portable(base.push('/') + (name + tail)),
        portable(base.push('/') + (other + end)),
        shown_below(base.push('/') + (name + tail), base.push('/') + (other + end), shown),
    ensures
        shown == base.push('/') + (name + tail),
{
    let path = base.push('/') + (name + tail);
    let root = base.push('/') + (other + end);
    let n = components(base).len() as int;
    lemma_components_join(base, name + tail);
    lemma_components_join(base, other + end);
    lemma_one_name(name, tail);
    lemma_one_name(other, end);
    assert(components(path)[n] == name);
    assert(components(root)[n] == other);
    if below(path, root) {
        assert(components(path).take(components(root).len() as int)[n] == components(path)[n]);
    }
}

/// Nothing is shown of the root itself.
pub proof fn nothing_is_shown_of_the_root(root: Seq<char>, shown: Seq<char>)
    requires
        shown_below(root, root, shown),
    ensures
        shown.len() == 0,
{
}

} // verus!
