//! What can go wrong while a book is resolved and built.

use vstd::prelude::*;
use vstd::string::*;

verus! {

broadcast use vstd::seq_lib::group_seq_properties;

/// A request that failed.
#[derive(Debug)]
pub struct FetchError {
    pub url: String,
    pub message: String,
}

/// What a [`FetchError`] holds.
pub struct FetchErrorView {
    pub url: Seq<char>,
    pub message: Seq<char>,
}

impl DeepView for FetchError {
    type V = FetchErrorView;

    open spec fn deep_view(&self) -> FetchErrorView {
        FetchErrorView { url: self.url@, message: self.message@ }
    }
}

impl FetchErrorView {
    pub open spec fn text(self) -> Seq<char> {
        "fetch failed for "@ + self.url + ": "@ + self.message
    }
}

impl FetchError {
    /// The error as a sentence.
    pub fn text(&self) -> (r: String)
        ensures
            r@ == self.deep_view().text(),
    {
        let mut s = "fetch failed for ".to_owned();
        s.append(self.url.as_str());
        s.append(": ");
        s.append(self.message.as_str());
        s
    }
}

#[derive(Debug)]
pub enum ResolveError {
    Fetch(FetchError),
    /// A response that could not be parsed, with the parser's message.
    Json(String),
    BadInput(String),
    CertNotFound(String),
    ModuleNotFound(String),
    NoPaths(String),
    /// The book resolved (structure, titles) but none of its modules have content: neither does
    /// the public source repo have any of them, nor did Learn serve any of their units.
    ContentUnavailable(String),
}

/// What a [`ResolveError`] holds.
pub enum ResolveErrorView {
    Fetch(FetchErrorView),
    Json(Seq<char>),
    BadInput(Seq<char>),
    CertNotFound(Seq<char>),
    ModuleNotFound(Seq<char>),
    NoPaths(Seq<char>),
    ContentUnavailable(Seq<char>),
}

impl DeepView for ResolveError {
    type V = ResolveErrorView;

    open spec fn deep_view(&self) -> ResolveErrorView {
        match self {
            ResolveError::Fetch(e) => ResolveErrorView::Fetch(e.deep_view()),
            ResolveError::Json(s) => ResolveErrorView::Json(s@),
            ResolveError::BadInput(s) => ResolveErrorView::BadInput(s@),
            ResolveError::CertNotFound(s) => ResolveErrorView::CertNotFound(s@),
            ResolveError::ModuleNotFound(s) => ResolveErrorView::ModuleNotFound(s@),
            ResolveError::NoPaths(s) => ResolveErrorView::NoPaths(s@),
            ResolveError::ContentUnavailable(s) => ResolveErrorView::ContentUnavailable(s@),
        }
    }
}

/// What a result holds.
pub open spec fn outcome<T: DeepView>(r: Result<T, ResolveError>) -> Result<
    T::V,
    ResolveErrorView,
> {
    match r {
        Ok(v) => Ok(v.deep_view()),
        Err(e) => Err(e.deep_view()),
    }
}

impl ResolveErrorView {
    pub open spec fn text(self) -> Seq<char> {
        match self {
            ResolveErrorView::Fetch(e) => e.text(),
            ResolveErrorView::Json(s) => "could not parse JSON: "@ + s,
            ResolveErrorView::BadInput(s) =>
                "could not derive a certification uid from input: "@ + s,
            ResolveErrorView::CertNotFound(s) => "certification not found in catalog: "@ + s,
            ResolveErrorView::ModuleNotFound(s) => "module not found in catalog: "@ + s,
            ResolveErrorView::NoPaths(s) => s + " has no learning paths in its study guide"@,
            ResolveErrorView::ContentUnavailable(s) =>
                "no exportable source content found for \""@ + s + "\""@,
        }
    }
}

impl ResolveError {
    /// The error as a sentence.
    pub fn text(&self) -> (r: String)
        ensures
            r@ == self.deep_view().text(),
    {
        match self {
            ResolveError::Fetch(e) => e.text(),
            ResolveError::Json(m) => {
                let mut s = "could not parse JSON: ".to_owned();
                s.append(m.as_str());
                s
            },
            ResolveError::BadInput(m) => {
                let mut s = "could not derive a certification uid from input: ".to_owned();
                s.append(m.as_str());
                s
            },
            ResolveError::CertNotFound(m) => {
                let mut s = "certification not found in catalog: ".to_owned();
                s.append(m.as_str());
                s
            },
            ResolveError::ModuleNotFound(m) => {
                let mut s = "module not found in catalog: ".to_owned();
                s.append(m.as_str());
                s
            },
            ResolveError::NoPaths(m) => {
                let mut s = m.clone();
                s.append(" has no learning paths in its study guide");
                s
            },
            ResolveError::ContentUnavailable(m) => {
                let mut s = "no exportable source content found for \"".to_owned();
                s.append(m.as_str());
                s.append("\"");
                s
            },
        }
    }
}

} // verus!
