//! Paths as texts: the components they name, and what is left below a root.
//!
//! Platforms differ in what else separates components and in what may stand in
//! front of them. Where a path has none of that, its components are the same
//! everywhere: what stands between `/`, nothing and `.` left out, except that a
//! `/` or a `.` in front of all others counts.

use vstd::prelude::*;

use crate::search::{first_index, lemma_first_index};

verus! {

/// The character is an ASCII letter.
pub open spec fn ascii_letter(c: char) -> bool {
    'a' <= c <= 'z' || 'A' <= c <= 'Z'
}

/// The path means the same on every platform: there is no `\` in it, and it
/// starts neither with two `/` nor with a drive letter and `:`.
pub open spec fn portable(path: Seq<char>) -> bool {
    &&& forall|i: int| 0 <= i < path.len() ==> #[trigger] path[i] != '\\'
    &&& path.len() >= 2 && path[0] == '/' ==> path[1] != '/'
    &&& path.len() >= 2 && ascii_letter(path[0]) ==> path[1] != ':'
}

/// What comes before the first `/`.
pub open spec fn head_name(body: Seq<char>) -> Seq<char> {
    body.take(first_index(body, '/') as int)
}

/// What comes behind the first `/`.
pub open spec fn past_name(body: Seq<char>) -> Seq<char> {
    let at = first_index(body, '/') as int;
    if at < body.len() {
        body.skip(at + 1)
    } else {
        seq![]
    }
}

/// The name is `.`.
pub open spec fn dot(name: Seq<char>) -> bool {
    name.len() == 1 && name[0] == '.'
}

/// What the text holds between `/`, nothing and `.` left out.
pub open spec fn names(body: Seq<char>) -> Seq<Seq<char>>
    decreases body.len(),
{
    if body.len() == 0 {
        seq![]
    } else {
        proof {
            lemma_first_index(body, '/');
        }
        let name = head_name(body);
        if name.len() == 0 || dot(name) {
            names(past_name(body))
        } else {
            seq![name] + names(past_name(body))
        }
    }
}

/// The path starts with `/`.
pub open spec fn rooted(path: Seq<char>) -> bool {
    path.len() > 0 && path[0] == '/'
}

/// The components of a path.
pub open spec fn components(path: Seq<char>) -> Seq<Seq<char>> {
    if rooted(path) {
        seq![seq!['/']] + names(path.skip(1))
    } else if dot(head_name(path)) {
        seq![seq!['.']] + names(past_name(path))
    } else {
        names(path)
    }
}

/// The text from its name number `k` on, counted from zero.
pub open spec fn from_name(body: Seq<char>, k: int) -> Seq<char>
    decreases body.len(),
{
    if body.len() == 0 {
        seq![]
    } else {
        proof {
            lemma_first_index(body, '/');
        }
        let name = head_name(body);
        if name.len() == 0 || dot(name) {
            from_name(past_name(body), k)
        } else if k <= 0 {
            body
        } else {
            from_name(past_name(body), k - 1)
        }
    }
}

/// The text of a path from its component number `n` on, counted from zero.
pub open spec fn from_component(path: Seq<char>, n: int) -> Seq<char> {
    if n <= 0 {
        path
    } else if rooted(path) {
        from_name(path.skip(1), n - 1)
    } else if dot(head_name(path)) {
        from_name(past_name(path), n - 1)
    } else {
        from_name(path, n)
    }
}

/// The path ends with a component: not with `/`, and not with `/.`.
pub open spec fn ends_in_component(path: Seq<char>) -> bool {
    let n = path.len();
    n > 0 ==> path[n - 1] != '/' && (n > 1 && path[n - 1] == '.' ==> path[n - 2] != '/')
}

/// The path starts with all components of the root.
pub open spec fn below(path: Seq<char>, root: Seq<char>) -> bool {
    let n = components(root).len() as int;
    n <= components(path).len() && components(path).take(n) == components(root)
}

/// `rest` is what is left of the path behind its first `n` components: it has
/// the other components, and it is the path's own text where that does not end
/// with something that is no component.
pub open spec fn left_behind(path: Seq<char>, n: int, rest: Seq<char>) -> bool {
    &&& components(rest) == components(path).skip(n)
    &&& ends_in_component(path) ==> rest == from_component(path, n)
}

} // verus!
