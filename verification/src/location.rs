//! Where data lies: the parts of a URL.

use vstd::prelude::*;

verus! {

/// The longest URL, in characters, whose parts are taken: beyond it the places inside a URL no
/// longer fit the numbers that they are kept in.
pub const MAX_URL_LEN: usize = 0x400_0000;

/// The scheme of a URL, as [`url::Url::scheme`] gives it; `None` for a text that is no URL.
pub uninterp spec fn url_scheme(url: Seq<char>) -> Option<Seq<char>>;

/// The path of a URL, as [`url::Url::path`] gives it; `None` for a text that is no URL.
pub uninterp spec fn url_path(url: Seq<char>) -> Option<Seq<char>>;

/// A URL with an empty path, as [`url::Url::set_path`] leaves it; `None` for a text that is no
/// URL.
pub uninterp spec fn url_base(url: Seq<char>) -> Option<Seq<char>>;

/// What contracts see of an optional text.
pub open spec fn text_of(text: Option<String>) -> Option<Seq<char>> {
    match text {
        Some(text) => Some(text@),
        None => None,
    }
}

/// Calls [`url::Url::parse`] and [`url::Url::scheme`]. The contract claims that the scheme is a
/// function of the text.
#[verifier::external_body]
pub(crate) fn scheme(url: &str) -> (scheme: Option<String>)
    ensures
        text_of(scheme) == url_scheme(url@),
{
    match url::Url::parse(url) {
        Ok(url) => Some(url.scheme().to_owned()),
        Err(_) => None,
    }
}

/// Calls [`url::Url::parse`] and [`url::Url::path`]. The contract claims that the path is a
/// function of the text.
#[verifier::external_body]
pub(crate) fn path(url: &str) -> (path: Option<String>)
    ensures
        text_of(path) == url_path(url@),
{
    match url::Url::parse(url) {
        Ok(url) => Some(url.path().to_owned()),
        Err(_) => None,
    }
}

/// Calls [`url::Url::parse`] and [`url::Url::set_path`] with an empty path. The contract claims
/// that the URL that is left is a function of the text. Only texts of a bounded length are taken:
/// with a longer one a place inside the URL may not fit the number that it is kept in.
#[verifier::external_body]
pub(crate) fn base(url: &str) -> (base: Option<String>)
    requires
        url@.len() <= MAX_URL_LEN,
    ensures
        text_of(base) == url_base(url@),
{
    match url::Url::parse(url) {
        Ok(mut url) => {
            url.set_path("");
            Some(url.as_str().to_owned())
        },
        Err(_) => None,
    }
}

/// The local path that a file URL names.
#[derive(Debug)]
pub enum FilePath {
    /// This path.
    Path(String),
    /// The URL names no local path.
    Invalid,
    /// The path is not valid UTF-8.
    NotUtf8,
}

/// Calls [`url::Url::parse`] and [`url::Url::to_file_path`]. Nothing is claimed of the path, which
/// depends on the platform.
#[verifier::external_body]
fn file_path(url: &str) -> (path: FilePath) {
    match url::Url::parse(url) {
        Ok(url) => match url.to_file_path() {
            Ok(path) => match path.to_str() {
                Some(path) => FilePath::Path(path.to_owned()),
                None => FilePath::NotUtf8,
            },
            Err(()) => FilePath::Invalid,
        },
        Err(_) => FilePath::Invalid,
    }
}

/// Whether a path is one that the file URL `url` may be found to name: one that asking
/// [`url::Url::to_file_path`] of this URL may give.
pub closed spec fn names_path(url: &str, path: FilePath) -> bool {
    call_ensures(file_path, (url,), path)
}

/// The local path that a file URL names on this machine.
pub(crate) fn local_path(url: &str) -> (path: FilePath)
    ensures
        names_path(url, path),
{
    file_path(url)
}

} // verus!
