//! Project-relative module ids from resolved paths: separators made portable, the Windows
//! verbatim prefix `//?/` dropped, and the project root cut off.
use crate::text::{has_prefix, owned, portable, strip_prefix, text_equal, to_portable};
use vstd::prelude::*;

verus! {

/// A path with portable separators and without the Windows verbatim prefix.
pub open spec fn normalized_path(p: Seq<char>) -> Seq<char> {
    let n = portable(p);
    if has_prefix(n, "//?/"@) {
        n.skip(4)
    } else {
        n
    }
}

/// The path without the `/` characters that end it.
pub open spec fn without_trailing_slashes(p: Seq<char>) -> Seq<char>
    decreases p.len(),
{
    if p.len() > 0 && p.last() == '/' {
        without_trailing_slashes(p.drop_last())
    } else {
        p
    }
}

/// A path normalized: portable separators, no verbatim prefix.
pub fn normalize_path(path: &str) -> (r: String)
    ensures
        r@ == normalized_path(path@),
{
    let n = to_portable(path);
    proof {
        reveal_strlit("//?/");
    }
    match strip_prefix(n.as_str(), "//?/") {
        Some(rest) => rest,
        None => n,
    }
}

fn trim_trailing_slashes(p: &str) -> (r: String)
    ensures
        r@ == without_trailing_slashes(p@),
{
    let cs = crate::text::chars_of(p);
    let mut n = cs.len();
    assert(cs@.take(n as int) =~= p@);
    while n > 0 && cs[n - 1] == '/'
        invariant
            n <= cs@.len(),
            cs@ == p@,
            without_trailing_slashes(p@) == without_trailing_slashes(cs@.take(n as int)),
        decreases n,
    {
        assert(cs@.take(n as int).drop_last() =~= cs@.take(n - 1));
        n = n - 1;
    }
    let mut out = String::new();
    let mut i: usize = 0;
    while i < n
        invariant
            i <= n <= cs@.len(),
            out@ == cs@.take(i as int),
        decreases n - i,
    {
        crate::text::push_char(&mut out, cs[i]);
        assert(cs@.take(i + 1) =~= cs@.take(i as int).push(cs@[i as int]));
        i = i + 1;
    }
    out
}

/// The module id of a resolved path inside the project root: the path below the root, empty
/// for the root itself, and the normalized path unchanged outside the root.
pub open spec fn relative_to_root(root: Seq<char>, resolved: Seq<char>) -> Seq<char> {
    let r = normalized_path(root);
    let p = normalized_path(resolved);
    let base = without_trailing_slashes(r);
    if p == r {
        Seq::empty()
    } else if has_prefix(p, base) && has_prefix(p.skip(base.len() as int), "/"@) {
        p.skip(base.len() as int + 1)
    } else {
        p
    }
}

/// The project-relative id of a resolved path.
pub fn relative_resolved_path(root: &str, resolved: &str) -> (r: String)
    ensures
        r@ == relative_to_root(root@, resolved@),
{
    let r = normalize_path(root);
    let p = normalize_path(resolved);
    if text_equal(p.as_str(), r.as_str()) {
        return String::new();
    }
    let base = trim_trailing_slashes(r.as_str());
    proof {
        reveal_strlit("/");
    }
    match strip_prefix(p.as_str(), base.as_str()) {
        Some(rest) => match strip_prefix(rest.as_str(), "/") {
            Some(relative) => {
                assert(p@.skip(base@.len() as int).skip(1) =~= p@.skip(base@.len() as int + 1));
                relative
            },
            None => p,
        },
        None => p,
    }
}

/// The resolved path is the directory or lies below it.
pub open spec fn lies_within(resolved: Seq<char>, directory: Seq<char>) -> bool {
    let d = normalized_path(directory);
    let p = normalized_path(resolved);
    let base = without_trailing_slashes(d);
    p == d || (has_prefix(p, base) && has_prefix(p.skip(base.len() as int), "/"@))
}

/// Whether the resolved path is the directory or lies below it.
pub fn normalized_path_is_within(resolved: &str, directory: &str) -> (r: bool)
    ensures
        r == lies_within(resolved@, directory@),
{
    let d = normalize_path(directory);
    let p = normalize_path(resolved);
    if text_equal(p.as_str(), d.as_str()) {
        return true;
    }
    let base = trim_trailing_slashes(d.as_str());
    match strip_prefix(p.as_str(), base.as_str()) {
        Some(rest) => crate::text::starts_with(rest.as_str(), "/"),
        None => false,
    }
}

} // verus!
