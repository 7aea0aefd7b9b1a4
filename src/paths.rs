//! Unix-style shader paths, through the `typed_path` crate.
use typed_path::{Utf8TypedPath, Utf8TypedPathBuf, Utf8UnixPath};
use vstd::prelude::*;

verus! {

/// `p` adjoined to `base`, as `Utf8UnixPath::join` does it: an empty `p`
/// leaves `base`, an absolute `p` replaces it, and otherwise a separator
/// goes between them unless `base` is empty or ends in one.
pub open spec fn unix_joined(base: Seq<char>, p: Seq<char>) -> Seq<char> {
    if p.len() == 0 {
        base
    } else if p[0] == '/' {
        p
    } else if base.len() == 0 || base.last() == '/' {
        base + p
    } else {
        base + seq!['/'] + p
    }
}

/// What `Utf8UnixPath::normalize` gives for `p`.
pub uninterp spec fn unix_normalized(p: Seq<char>) -> Seq<char>;

/// What `Utf8UnixPath::parent` gives for `p`.
pub uninterp spec fn unix_parent(p: Seq<char>) -> Option<Seq<char>>;

/// Whether `Utf8TypedPath::derive` reads `s` as a Windows path.
pub uninterp spec fn windows_form(s: Seq<char>) -> bool;

/// The root directory.
pub open spec fn root() -> Seq<char> {
    seq!['/']
}

/// `p` adjoined to the root and normalized: the form the source repository
/// is keyed by.
pub open spec fn rooted(p: Seq<char>) -> Seq<char> {
    unix_normalized(unix_joined(root(), p))
}

/// The directory of `p`, or the root where `p` has none.
pub open spec fn parent_or_root(p: Seq<char>) -> Seq<char> {
    match unix_parent(p) {
        Some(q) => q,
        None => root(),
    }
}

/// The path that `#include "<raw>"` names from a file in `dir`; none where
/// `raw` is not a Unix path.
pub open spec fn include_target(dir: Seq<char>, raw: Seq<char>) -> Option<Seq<char>> {
    if windows_form(raw) {
        None
    } else {
        Some(rooted(unix_joined(dir, raw)))
    }
}

/// Relies on `typed_path::Utf8UnixPath::join`: `p` adjoined to `base`.
#[verifier::external_body]
fn join_path(base: &str, p: &str) -> (r: String)
    ensures
        r@ == unix_joined(base@, p@),
{
    Utf8UnixPath::new(base).join(p).into_string()
}

/// Relies on `typed_path::Utf8UnixPath::normalize`: `p` without `.`, `..`
/// and repeated separators.
#[verifier::external_body]
fn normalize_path(p: &str) -> (r: String)
    ensures
        r@ == unix_normalized(p@),
{
    Utf8UnixPath::new(p).normalize().into_string()
}

/// Relies on `typed_path::Utf8UnixPath::parent`: `p` without its last
/// component, none where `p` ends in the root or is empty.
#[verifier::external_body]
fn parent_path(p: &str) -> (r: Option<String>)
    ensures
        r matches Some(q) ==> unix_parent(p@) == Some(q@),
        r is None ==> unix_parent(p@) is None,
{
    Utf8UnixPath::new(p).parent().map(|q| q.as_str().to_owned())
}

/// Relies on `typed_path::Utf8TypedPath::derive`: it reads `s` as a Unix or
/// a Windows path, a Windows one whenever `s` starts with a backslash; the
/// Unix path keeps the text of `s`.
#[verifier::external_body]
fn derive_unix_path(s: &str) -> (r: Option<String>)
    ensures
        r is Some <==> !windows_form(s@),
        r matches Some(q) ==> q@ == s@,
        s@.len() > 0 && s@[0] == '\\' ==> r is None,
{
    match Utf8TypedPath::derive(s).to_path_buf() {
        Utf8TypedPathBuf::Unix(q) => Some(q.into_string()),
        Utf8TypedPathBuf::Windows(_) => None,
    }
}

/// The root directory, `/`.
pub fn root_path() -> (r: String)
    ensures
        r@ == root(),
{
    proof {
        reveal_strlit("/");
    }
    String::from_str("/")
}

/// `p` adjoined to the root and normalized.
pub fn rooted_path(p: &str) -> (r: String)
    ensures
        r@ == rooted(p@),
{
    let base = root_path();
    let joined = join_path(base.as_str(), p);
    normalize_path(joined.as_str())
}

/// The directory of `p`, or the root where `p` has none.
pub fn parent_dir(p: &str) -> (r: String)
    ensures
        r@ == parent_or_root(p@),
{
    match parent_path(p) {
        Some(q) => q,
        None => root_path(),
    }
}

/// The path that `#include "<raw>"` names from a file in `dir`.
pub fn resolve_include_path(dir: &str, raw: &str) -> (r: Option<String>)
    ensures
        r matches Some(q) ==> include_target(dir@, raw@) == Some(q@),
        r is None ==> include_target(dir@, raw@) is None,
{
    match derive_unix_path(raw) {
        Some(rel) => {
            let joined = join_path(dir, rel.as_str());
            Some(rooted_path(joined.as_str()))
        },
        None => None,
    }
}

} // verus!
