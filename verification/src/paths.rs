//! Paths as sequences of characters, with `/` between the components.
//!
//! A path is read the way a Unix file system reads it: a leading `/` is the
//! root, a leading `.` component is kept, and empty components and later `.`
//! components count for nothing.

use vstd::prelude::*;
use vstd::string::*;

verus! {

/// The path begins at the root.
pub open spec fn has_root(s: Seq<char>) -> bool {
    s.len() > 0 && s[0] == '/'
}

/// The path begins with a `.` component.
pub open spec fn starts_at_cur_dir(s: Seq<char>) -> bool {
    s.len() > 0 && s[0] == '.' && (s.len() == 1 || s[1] == '/')
}

/// Where the components after the root, or after a leading `.`, begin.
pub open spec fn body_start(s: Seq<char>) -> int {
    if has_root(s) || starts_at_cur_dir(s) {
        1
    } else {
        0
    }
}

/// The length that is left of the first `n` characters of `s` once the
/// trailing components that count for nothing (empty ones and `.`) are
/// taken off. Nothing before `lo` is taken off.
pub open spec fn stripped_len(s: Seq<char>, lo: int, n: int) -> int
    decreases n,
{
    if lo < 0 || n <= lo {
        n
    } else if s[n - 1] == '/' {
        stripped_len(s, lo, n - 1)
    } else if n > lo + 1 && s[n - 1] == '.' && s[n - 2] == '/' {
        stripped_len(s, lo, n - 2)
    } else if n == lo + 1 && s[n - 1] == '.' {
        lo
    } else {
        n
    }
}

/// Where the last component of the first `n` characters of `s` begins, the
/// components being looked for from `lo` on.
pub open spec fn component_start(s: Seq<char>, lo: int, n: int) -> int
    decreases n,
{
    if lo < 0 || n <= lo {
        lo
    } else if s[n - 1] == '/' {
        n
    } else {
        component_start(s, lo, n - 1)
    }
}

/// The path without its last component; `None` where there is no such
/// component to take off (the empty path, the root).
pub open spec fn parent_path(s: Seq<char>) -> Option<Seq<char>> {
    let lo = body_start(s);
    let n = stripped_len(s, lo, s.len() as int);
    if n > lo {
        let c = component_start(s, lo, n);
        let r = if c > lo {
            c - 1
        } else {
            lo
        };
        Some(s.take(stripped_len(s, lo, r)))
    } else if has_root(s) {
        None
    } else if lo == 1 {
        Some(Seq::empty())
    } else {
        None
    }
}

/// The last component of the path; `None` where the path ends in `..` or has
/// no component after its root or its leading `.`. The root alone is its own
/// name.
pub open spec fn file_name_of(s: Seq<char>) -> Option<Seq<char>> {
    let lo = body_start(s);
    let n = stripped_len(s, lo, s.len() as int);
    if s == seq!['/'] {
        Some(s)
    } else if n > lo {
        let c = component_start(s, lo, n);
        let name = s.subrange(c, n);
        if name == seq!['.', '.'] {
            None
        } else {
            Some(name)
        }
    } else {
        None
    }
}

/// `a` is reached from `p` by taking the parent one or more times.
pub open spec fn is_ancestor(a: Seq<char>, p: Seq<char>) -> bool
    decreases p.len(),
    via is_ancestor_decreases
{
    match parent_path(p) {
        Some(q) => q == a || is_ancestor(a, q),
        None => false,
    }
}

#[via_fn]
proof fn is_ancestor_decreases(a: Seq<char>, p: Seq<char>) {
    lemma_parent_shorter(p);
}

/// The view of an optional string.
pub open spec fn opt_chars(o: Option<String>) -> Option<Seq<char>> {
    match o {
        Some(s) => Some(s@),
        None => None,
    }
}

/// Taking trailing components off leaves a length between `lo` and `n`.
pub proof fn lemma_stripped_len_bounds(s: Seq<char>, lo: int, n: int)
    requires
        0 <= lo <= n,
    ensures
        lo <= stripped_len(s, lo, n) <= n,
    decreases n,
{
    if n <= lo {
    } else if s[n - 1] == '/' {
        lemma_stripped_len_bounds(s, lo, n - 1);
    } else if n > lo + 1 && s[n - 1] == '.' && s[n - 2] == '/' {
        lemma_stripped_len_bounds(s, lo, n - 2);
    }
}

/// The last component begins between `lo` and `n`.
pub proof fn lemma_component_start_bounds(s: Seq<char>, lo: int, n: int)
    requires
        0 <= lo <= n,
    ensures
        lo <= component_start(s, lo, n) <= n,
    decreases n,
{
    if n <= lo {
    } else if s[n - 1] == '/' {
    } else {
        lemma_component_start_bounds(s, lo, n - 1);
    }
}

/// A parent is a proper prefix of its path.
pub proof fn lemma_parent_shorter(s: Seq<char>)
    ensures
        parent_path(s) matches Some(p) ==> p.len() < s.len() && p == s.take(p.len() as int),
{
    let lo = body_start(s);
    if lo <= s.len() {
        lemma_stripped_len_bounds(s, lo, s.len() as int);
        let n = stripped_len(s, lo, s.len() as int);
        if n > lo {
            lemma_component_start_bounds(s, lo, n);
            let c = component_start(s, lo, n);
            let r = if c > lo {
                c - 1
            } else {
                lo
            };
            lemma_stripped_len_bounds(s, lo, r);
            let k = stripped_len(s, lo, r);
            assert(s.take(k).len() == k);
            assert(s.take(k).take(k) =~= s.take(k));
        } else if !has_root(s) && lo == 1 {
            assert(Seq::<char>::empty() =~= s.take(0));
        }
    }
}

/// An ancestor is a proper prefix of its descendant.
pub proof fn lemma_ancestor_shorter(a: Seq<char>, p: Seq<char>)
    requires
        is_ancestor(a, p),
    ensures
        a.len() < p.len(),
    decreases p.len(),
{
    lemma_parent_shorter(p);
    let q = parent_path(p)->Some_0;
    if q != a {
        lemma_ancestor_shorter(a, q);
    }
}

/// No path is its own ancestor.
pub proof fn lemma_ancestor_not_self(p: Seq<char>)
    ensures
        !is_ancestor(p, p),
{
    if is_ancestor(p, p) {
        lemma_ancestor_shorter(p, p);
    }
}

/// An ancestor of an ancestor is an ancestor.
pub proof fn lemma_ancestor_transitive(a: Seq<char>, b: Seq<char>, c: Seq<char>)
    requires
        a == b || is_ancestor(a, b),
        is_ancestor(b, c),
    ensures
        is_ancestor(a, c),
    decreases c.len(),
{
    lemma_parent_shorter(c);
    let q = parent_path(c)->Some_0;
    if q != b {
        lemma_ancestor_transitive(a, b, q);
    }
}

/// The characters of a string, in a vector.
pub fn chars_of(s: &str) -> (r: Vec<char>)
    ensures
        r@ == s@,
{
    let mut r: Vec<char> = Vec::new();
    for c in it: s.chars()
        invariant
            r@.len() == it.index(),
            forall|j: int| 0 <= j < r@.len() ==> r@[j] == it.seq()[j],
            it.seq() == s@,
    {
        r.push(c);
    }
    assert(r@ =~= s@);
    r
}

/// Where the components begin, as `body_start` defines it.
fn body_start_of(chars: &Vec<char>) -> (lo: usize)
    ensures
        lo == body_start(chars@),
        lo <= chars@.len(),
{
    let len = chars.len();
    if len > 0 && chars[0] == '/' {
        1
    } else if len > 0 && chars[0] == '.' && (len == 1 || chars[1] == '/') {
        1
    } else {
        0
    }
}

/// The length without the trailing components that count for nothing, as
/// `stripped_len` defines it.
fn strip(chars: &Vec<char>, lo: usize, n: usize) -> (k: usize)
    requires
        lo <= n <= chars@.len(),
    ensures
        k == stripped_len(chars@, lo as int, n as int),
        lo <= k <= n,
{
    let mut k = n;
    loop
        invariant
            lo <= k <= n <= chars@.len(),
            stripped_len(chars@, lo as int, k as int) == stripped_len(chars@, lo as int, n as int),
        decreases k,
    {
        if k <= lo {
            return k;
        } else if chars[k - 1] == '/' {
            k = k - 1;
        } else if k > lo + 1 && chars[k - 1] == '.' && chars[k - 2] == '/' {
            k = k - 2;
        } else if k == lo + 1 && chars[k - 1] == '.' {
            return lo;
        } else {
            return k;
        }
    }
}

/// Where the last component begins, as `component_start` defines it.
fn last_component(chars: &Vec<char>, lo: usize, n: usize) -> (c: usize)
    requires
        lo <= n <= chars@.len(),
    ensures
        c == component_start(chars@, lo as int, n as int),
        lo <= c <= n,
{
    let mut c = n;
    while c > lo && chars[c - 1] != '/'
        invariant
            lo <= c <= n <= chars@.len(),
            component_start(chars@, lo as int, c as int) == component_start(
                chars@,
                lo as int,
                n as int,
            ),
        decreases c,
    {
        c = c - 1;
    }
    c
}

/// The parent of a path, as `parent_path` defines it.
pub fn parent_file_path(file_path: &String) -> (r: Option<String>)
    ensures
        opt_chars(r) == parent_path(file_path@),
{
    let text = file_path.as_str();
    let chars = chars_of(text);
    let lo = body_start_of(&chars);
    let n = strip(&chars, lo, chars.len());
    if n > lo {
        let c = last_component(&chars, lo, n);
        let r = if c > lo {
            c - 1
        } else {
            lo
        };
        let k = strip(&chars, lo, r);
        let parent = String::from_str(text.substring_char(0, k));
        assert(parent@ =~= file_path@.take(k as int));
        Some(parent)
    } else if chars.len() > 0 && chars[0] == '/' {
        None
    } else if lo == 1 {
        Some(String::new())
    } else {
        None
    }
}

/// The last component of a path, as `file_name_of` defines it.
pub fn file_name(file_path: &String) -> (r: Option<String>)
    ensures
        opt_chars(r) == file_name_of(file_path@),
{
    let text = file_path.as_str();
    let chars = chars_of(text);
    let lo = body_start_of(&chars);
    let n = strip(&chars, lo, chars.len());
    if chars.len() == 1 && chars[0] == '/' {
        assert(file_path@ =~= seq!['/']);
        Some(file_path.clone())
    } else if n > lo {
        let c = last_component(&chars, lo, n);
        if n - c == 2 && chars[c] == '.' && chars[c + 1] == '.' {
            assert(file_path@.subrange(c as int, n as int) =~= seq!['.', '.']);
            None
        } else {
            let name = String::from_str(text.substring_char(c, n));
            assert(file_path@.subrange(c as int, n as int) != seq!['.', '.']) by {
                let name = file_path@.subrange(c as int, n as int);
                if name == seq!['.', '.'] {
                    assert(name.len() == 2);
                    assert(name[0] == '.');
                    assert(name[1] == '.');
                }
            }
            Some(name)
        }
    } else {
        None
    }
}

} // verus!
