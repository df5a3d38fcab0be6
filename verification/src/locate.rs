//! Locating the file that a schema reference points to: trusted bindings to
//! the `url` crate and to `std::path`. URLs and file paths are carried as the
//! values those crates make (`url::Url`, `std::path::PathBuf`), opaque to
//! the proofs: a URL is never rebuilt from its text, and a file path is never
//! converted to text, so each reaches the next call exactly as it was made.
//!
//! The file-path functions follow the conventions of the platform that the
//! crate is compiled for (the `url` crate has separate Unix and Windows code
//! for them); within one build they are functions of their arguments.
use vstd::prelude::*;
use url::Url;
use std::path::PathBuf;

verus! {

/// `url::Url`, carried through the proofs as an opaque value.
#[verifier::external_type_specification]
#[verifier::external_body]
pub struct ExUrl(url::Url);

/// `std::path::PathBuf`, carried through the proofs as an opaque value.
#[verifier::external_type_specification]
#[verifier::external_body]
pub struct ExPathBuf(std::path::PathBuf);

/// `url::Url::from_file_path(path)`, or `None` where that call fails (for
/// example on a relative path).
pub uninterp spec fn file_url(path: Seq<char>) -> Option<Url>;

/// `base.join(reference)`, or `None` where the join fails.
pub uninterp spec fn joined_url(base: Url, reference: Seq<char>) -> Option<Url>;

/// `url::Url::path` of `url`.
pub uninterp spec fn url_path(url: Url) -> Seq<char>;

/// `url::Url::to_file_path` of `url`, or `None` where the conversion fails.
pub uninterp spec fn url_file_path(url: Url) -> Option<PathBuf>;

/// `std::path::Path::file_stem` of `path`, as text (lossily converted).
pub uninterp spec fn file_stem(path: PathBuf) -> Option<Seq<char>>;

/// The view of an optional string.
pub open spec fn text_view(o: Option<String>) -> Option<Seq<char>> {
    match o {
        Some(s) => Some(s@),
        None => None,
    }
}

/// Calls `url::Url::from_file_path`; the contract claims only that the result
/// is [`file_url`] of the argument.
#[verifier::external_body]
pub(crate) fn url_from_file_path(path: &str) -> (r: Option<Url>)
    ensures
        r == file_url(path@),
{
    Url::from_file_path(std::path::Path::new(path)).ok()
}

/// Calls `url::Url::join`; the contract claims only that the result is
/// [`joined_url`] of the arguments.
#[verifier::external_body]
pub(crate) fn url_join(base: &Url, reference: &str) -> (r: Option<Url>)
    ensures
        r == joined_url(*base, reference@),
{
    base.join(reference).ok()
}

/// Calls `url::Url::path`; the contract claims only that the result is
/// [`url_path`] of the argument.
#[verifier::external_body]
pub(crate) fn path_of_url(url: &Url) -> (r: String)
    ensures
        r@ == url_path(*url),
{
    url.path().to_string()
}

/// Calls `url::Url::to_file_path`; the contract claims only that the result
/// is [`url_file_path`] of the argument.
#[verifier::external_body]
pub(crate) fn file_path_of_url(url: &Url) -> (r: Option<PathBuf>)
    ensures
        r == url_file_path(*url),
{
    url.to_file_path().ok()
}

/// Calls `std::path::Path::file_stem`; the contract claims only that the
/// result is [`file_stem`] of the argument.
#[verifier::external_body]
pub(crate) fn stem_of_path(path: &PathBuf) -> (r: Option<String>)
    ensures
        text_view(r) == file_stem(*path),
{
    path.file_stem().map(|s| s.to_string_lossy().into_owned())
}

/// Calls `Clone::clone` on a `url::Url` (a derived clone, which copies every
/// field); the contract claims that the copy is the same value.
#[verifier::external_body]
pub(crate) fn copy_url(url: &Url) -> (r: Url)
    ensures
        r == *url,
{
    url.clone()
}

/// Calls `Clone::clone` on a `std::path::PathBuf`; the contract claims that
/// the copy is the same value.
#[verifier::external_body]
pub(crate) fn copy_path(path: &PathBuf) -> (r: PathBuf)
    ensures
        r == *path,
{
    path.clone()
}

} // verus!
