//! Glob patterns with literal path separators (`*` never crosses `/`), as the `globset` crate
//! compiles and matches them.
use vstd::prelude::*;

verus! {

/// The message `globset` gives when it rejects `pattern`, or `None` when it accepts it.
pub uninterp spec fn glob_rejection(pattern: Seq<char>) -> Option<Seq<char>>;

/// Whether `globset` accepts `pattern` (literal separators) and its compiled set matches `path`.
pub uninterp spec fn glob_match(pattern: Seq<char>, path: Seq<char>) -> bool;

/// Whether `globset` accepts `pattern` (literal separators) but cannot compile its matcher (its
/// regex nests too deep or grows past globset's size limit).
pub uninterp spec fn glob_matcher_fails(pattern: Seq<char>) -> bool;

/// Builds `pattern` with `globset::GlobBuilder` (literal separators on) and reports the
/// rejection message (`globset::Error`'s display) when `build` fails. The contract names the
/// result; it claims nothing of which patterns are valid.
#[verifier::external_body]
pub fn glob_error(pattern: &str) -> (r: Option<String>)
    ensures
        match r {
            Some(message) => glob_rejection(pattern@) == Some(message@),
            None => glob_rejection(pattern@) is None,
        },
{
    match globset::GlobBuilder::new(pattern).literal_separator(true).build() {
        Ok(_) => None,
        Err(error) => Some(error.to_string()),
    }
}

/// Builds `pattern` as `glob_error` does, compiles it with `globset::GlobSetBuilder::build`,
/// which reports a regex that cannot be compiled as an error, and tests `path` with
/// `GlobSet::is_match`. A rejected pattern matches nothing; `None` when the matcher cannot be
/// compiled. The contract names both results.
#[verifier::external_body]
pub fn glob_matches(pattern: &str, path: &str) -> (r: Option<bool>)
    ensures
        r is None <==> glob_matcher_fails(pattern@),
        r matches Some(b) ==> b == glob_match(pattern@, path@) && (b ==> glob_rejection(pattern@) is None),
{
    match globset::GlobBuilder::new(pattern).literal_separator(true).build() {
        Err(_) => Some(false),
        Ok(glob) => match globset::GlobSetBuilder::new().add(glob).build() {
            Ok(set) => Some(set.is_match(path)),
            Err(_) => None,
        },
    }
}

/// The pattern's matcher compiles and matches the path.
pub open spec fn glob_hits(pattern: Seq<char>, path: Seq<char>) -> bool {
    !glob_matcher_fails(pattern) && glob_match(pattern, path)
}

/// Whether the pattern's matcher compiles and matches the path; a pattern whose matcher cannot
/// be compiled matches nothing.
pub fn glob_hit(pattern: &str, path: &str) -> (r: bool)
    ensures
        r == glob_hits(pattern@, path@),
        r ==> glob_rejection(pattern@) is None,
{
    match glob_matches(pattern, path) {
        Some(b) => b,
        None => false,
    }
}

/// Whether `globset::Glob::new` accepts `pattern` (default options: `*` may cross `/`) and its
/// compiled set matches `path`.
pub uninterp spec fn plain_glob_match(pattern: Seq<char>, path: Seq<char>) -> bool;

/// Whether `globset::Glob::new` accepts `pattern` but cannot compile its matcher.
pub uninterp spec fn plain_matcher_fails(pattern: Seq<char>) -> bool;

/// Compiles `pattern` with `globset::Glob::new` and `GlobSetBuilder::build`, and tests `path`
/// with `GlobSet::is_match`; a rejected pattern matches nothing, and `None` when the matcher
/// cannot be compiled. The contract names both results.
#[verifier::external_body]
pub fn plain_glob_matches(pattern: &str, path: &str) -> (r: Option<bool>)
    ensures
        r is None <==> plain_matcher_fails(pattern@),
        r matches Some(b) ==> b == plain_glob_match(pattern@, path@),
{
    match globset::Glob::new(pattern) {
        Err(_) => Some(false),
        Ok(glob) => match globset::GlobSetBuilder::new().add(glob).build() {
            Ok(set) => Some(set.is_match(path)),
            Err(_) => None,
        },
    }
}

/// The plain pattern's matcher compiles and matches the path.
pub open spec fn plain_glob_hits(pattern: Seq<char>, path: Seq<char>) -> bool {
    !plain_matcher_fails(pattern) && plain_glob_match(pattern, path)
}

/// Whether the plain pattern's matcher compiles and matches the path; a pattern whose matcher
/// cannot be compiled matches nothing.
pub fn plain_glob_hit(pattern: &str, path: &str) -> (r: bool)
    ensures
        r == plain_glob_hits(pattern@, path@),
{
    match plain_glob_matches(pattern, path) {
        Some(b) => b,
        None => false,
    }
}

} // verus!
