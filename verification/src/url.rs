//! Addresses of files. An address is the text of a URL.

use std::path::PathBuf;
use tower_lsp::lsp_types::Url;
use vstd::prelude::*;
use vstd::string::*;

verus! {

/// A path of the file system.
#[verifier::external_type_specification]
#[verifier::external_body]
pub struct ExPathBuf(PathBuf);

/// The address that `reference` names as seen from `base`, as `Url::join`
/// gives it, or none where `base` is no address or the two cannot be joined.
pub uninterp spec fn joined_url(base: Seq<char>, reference: Seq<char>) -> Option<Seq<char>>;

/// The path in the address `uri`, as `Url::path` gives it, or none where
/// `uri` is no address.
pub uninterp spec fn url_path(uri: Seq<char>) -> Option<Seq<char>>;

/// Whether `uri` is an address whose path starts with a slash. That of `data:x`
/// does not.
pub open spec fn is_rooted(uri: Seq<char>) -> bool {
    match url_path(uri) {
        Some(path) => path.len() > 0 && path[0] == '/',
        None => false,
    }
}

/// Whether `uri` starts as the addresses of files do.
pub open spec fn is_file_address(uri: Seq<char>) -> bool {
    "file://"@.is_prefix_of(uri)
}

/// Calls `Url::join` on `base`, read by `Url::parse`.
///
/// It is claimed that the outcome depends on the two texts alone.
#[verifier::external_body]
pub(crate) fn join(base: &str, reference: &str) -> (r: Option<String>)
    ensures
        r.deep_view() == joined_url(base@, reference@),
{
    Some(Url::parse(base).ok()?.join(reference).ok()?.to_string())
}

/// Calls `Url::path` on `uri`, read by `Url::parse`.
///
/// It is claimed that the outcome depends on the text alone.
#[verifier::external_body]
pub(crate) fn path(uri: &str) -> (r: Option<String>)
    ensures
        r.deep_view() == url_path(uri@),
{
    Some(Url::parse(uri).ok()?.path().to_string())
}

/// Calls `Url::to_file_path` on `uri`, read by `Url::parse`.
///
/// It is claimed that only an address whose own path starts with a slash
/// stands for a path: of any other `Url::path_segments` gives nothing, and the
/// call fails. Which of the rooted addresses stand for a path, and for which
/// one, is left open: that differs from one system to another.
#[verifier::external_body]
pub(crate) fn to_file_path(uri: &str) -> (r: Option<PathBuf>)
    ensures
        r is Some ==> is_rooted(uri@),
{
    Url::parse(uri).ok()?.to_file_path().ok()
}

/// Calls `Url::from_file_path`.
///
/// It is claimed that the address of a path starts with `file://`. How it goes
/// on, and which paths have one, is left open: both differ from one system to
/// another.
#[verifier::external_body]
pub(crate) fn from_file_path(path: &PathBuf) -> (r: Option<String>)
    ensures
        match r {
            Some(uri) => is_file_address(uri@),
            None => true,
        },
{
    Some(Url::from_file_path(path).ok()?.to_string())
}

/// Whether `r` is what `Url::to_file_path` may give for `uri`: the path that
/// `uri` stands for, or none.
pub closed spec fn may_stand_for(uri: &str, r: Option<PathBuf>) -> bool {
    call_ensures(to_file_path, (uri,), r)
}

/// Whether `r` is what `Url::from_file_path` may give for `path`: the address
/// of `path`, or none.
pub closed spec fn may_be_at(path: &PathBuf, r: Option<Seq<char>>) -> bool {
    exists|uri: Option<String>| #[trigger]
        call_ensures(from_file_path, (path,), uri) && uri.deep_view() == r
}

/// Asks for the path that `uri` stands for.
pub(crate) fn asked_path(uri: &str) -> (r: Option<PathBuf>)
    ensures
        may_stand_for(uri, r),
        r is Some ==> is_rooted(uri@),
{
    let call = to_file_path;
    call(uri)
}

/// Asks for the address of `path`.
pub(crate) fn asked_address(path: &PathBuf) -> (r: Option<String>)
    ensures
        may_be_at(path, r.deep_view()),
        match r {
            Some(uri) => is_file_address(uri@),
            None => true,
        },
{
    let call = from_file_path;
    call(path)
}

} // verus!
