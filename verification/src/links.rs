//! Link detection over a short text fragment, done by the `linkify` crate.
//! The detected sequences are given names here; everything downstream is
//! stated and proved over those names.

use vstd::prelude::*;

verus! {

/// The email addresses that link detection recognizes in `s`, in text order.
/// The result depends on the characters of `s` alone.
pub uninterp spec fn emails_in(s: Seq<char>) -> Seq<Seq<char>>;

/// The URLs that link detection recognizes in `s`, in text order.
/// The result depends on the characters of `s` alone.
pub uninterp spec fn urls_in(s: Seq<char>) -> Seq<Seq<char>>;

/// Relies on `linkify::LinkFinder::links` with the kinds restricted to
/// `LinkKind::Email`: it scans `s` left to right and yields each recognized
/// email address as a substring of `s`, a pure function of the text.
#[verifier::external_body]
pub(crate) fn find_emails(s: &str) -> (r: Vec<String>)
    ensures
        r.deep_view() == emails_in(s@),
{
    let mut finder = linkify::LinkFinder::new();
    finder.kinds(&[linkify::LinkKind::Email]);
    finder.links(s).map(|l| l.as_str().to_string()).collect()
}

/// Relies on `linkify::LinkFinder::links` with the kinds restricted to
/// `LinkKind::Url`: it scans `s` left to right and yields each recognized
/// URL as a substring of `s`, a pure function of the text.
#[verifier::external_body]
pub(crate) fn find_urls(s: &str) -> (r: Vec<String>)
    ensures
        r.deep_view() == urls_in(s@),
{
    let mut finder = linkify::LinkFinder::new();
    finder.kinds(&[linkify::LinkKind::Url]);
    finder.links(s).map(|l| l.as_str().to_string()).collect()
}

} // verus!
