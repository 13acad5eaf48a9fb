//! URLs of pastes: the parts of a parsed URL that the library reads, and the
//! call into the `url` crate that parses them.

use vstd::prelude::*;
use crate::error::BinsError;

verus! {

/// What the library knows of a parsed URL: its serialization, and its path
/// segments (`None` for a URL that cannot be a base, such as `data:` URLs).
pub struct UrlView {
    pub serialization: Seq<char>,
    pub segments: Option<Seq<Seq<char>>>,
}

/// A parsed URL, held as the plain values that the library reads of it.
#[derive(Debug)]
pub struct PasteUrl {
    /// The serialization of the URL (`Url::as_str`).
    pub serialization: String,
    /// The path segments of the URL (`Url::path_segments`).
    pub segments: Option<Vec<String>>,
}

/// The views of a vector of strings.
pub open spec fn strings_view(v: Seq<String>) -> Seq<Seq<char>> {
    v.map_values(|s: String| s@)
}

impl View for PasteUrl {
    type V = UrlView;

    open spec fn view(&self) -> UrlView {
        UrlView {
            serialization: self.serialization@,
            segments: match self.segments {
                Some(v) => Some(strings_view(v@)),
                None => None,
            },
        }
    }
}

/// A copy of a vector of strings.
pub fn clone_strings(v: &Vec<String>) -> (r: Vec<String>)
    ensures
        strings_view(r@) == strings_view(v@),
{
    let mut r: Vec<String> = Vec::new();
    let n = v.len();
    for i in 0..n
        invariant
            n == v@.len(),
            r@.len() == i,
            forall|j: int| 0 <= j < i ==> (#[trigger] r@[j])@ == v@[j]@,
    {
        let s = v[i].clone();
        r.push(s);
    }
    assert(strings_view(r@) =~= strings_view(v@));
    r
}

impl PasteUrl {
    /// A copy of this URL.
    pub fn duplicate(&self) -> (r: PasteUrl)
        ensures
            r@ == self@,
    {
        PasteUrl {
            serialization: self.serialization.clone(),
            segments: match &self.segments {
                Some(v) => Some(clone_strings(v)),
                None => None,
            },
        }
    }

    /// The serialization of this URL.
    pub fn as_str(&self) -> (r: &str)
        ensures
            r@ == self@.serialization,
    {
        self.serialization.as_str()
    }
}

/// What `url::Url::parse` gives for the input `input`: the parsed URL, or the
/// text of the parse error.
pub uninterp spec fn url_parse(input: Seq<char>) -> Result<UrlView, Seq<char>>;

/// `url::Url::parse`: parses an absolute URL. The contract names the outcome,
/// which depends on the input alone; it claims nothing about which inputs
/// parse or what their serialization is.
#[verifier::external_body]
fn url_parse_call(input: &str) -> (r: Result<PasteUrl, String>)
    ensures
        match r {
            Ok(u) => url_parse(input@) == Ok::<UrlView, Seq<char>>(u@),
            Err(e) => url_parse(input@) == Err::<UrlView, Seq<char>>(e@),
        },
{
    match url::Url::parse(input) {
        Ok(u) => Ok(PasteUrl {
            serialization: u.as_str().to_owned(),
            segments: u.path_segments().map(|s| s.map(String::from).collect()),
        }),
        Err(e) => Err(e.to_string()),
    }
}

/// The library's outcome of parsing `input` as a URL: the URL, or an error
/// whose message is the parse error's text.
pub open spec fn parse_url_spec(input: Seq<char>, r: Result<PasteUrl, BinsError>) -> bool {
    match (r, url_parse(input)) {
        (Ok(u), Ok(v)) => u@ == v,
        (Err(BinsError::Msg(m)), Err(e)) => m@ == e,
        _ => false,
    }
}

/// Parses `input` as an absolute URL.
pub fn parse_url(input: &str) -> (r: Result<PasteUrl, BinsError>)
    ensures
        parse_url_spec(input@, r),
{
    match url_parse_call(input) {
        Ok(u) => Ok(u),
        Err(e) => Err(BinsError::Msg(e)),
    }
}

/// The last path segment of a URL, if it has path segments.
pub open spec fn last_segment(u: UrlView) -> Option<Seq<char>> {
    match u.segments {
        Some(s) => if s.len() > 0 {
            Some(s.last())
        } else {
            None
        },
        None => None,
    }
}

/// The last path segment of `url`, if it has path segments.
pub fn last_path_segment(url: &PasteUrl) -> (r: Option<String>)
    ensures
        match r {
            Some(s) => last_segment(url@) == Some(s@),
            None => last_segment(url@) is None,
        },
{
    match &url.segments {
        Some(v) => if v.len() > 0 {
            Some(v[v.len() - 1].clone())
        } else {
            None
        },
        None => None,
    }
}

/// The non-empty pieces of `s`, in order.
pub open spec fn non_empty(s: Seq<Seq<char>>) -> Seq<Seq<char>>
    decreases s.len(),
{
    if s.len() == 0 {
        s
    } else if s.last().len() == 0 {
        non_empty(s.drop_last())
    } else {
        non_empty(s.drop_last()).push(s.last())
    }
}

/// The non-empty path segments of a URL; none for a URL without path segments.
pub open spec fn non_empty_segments(u: UrlView) -> Seq<Seq<char>> {
    match u.segments {
        Some(s) => non_empty(s),
        None => Seq::empty(),
    }
}

/// The non-empty path segments of `url`, in order.
pub fn url_segments(url: &PasteUrl) -> (r: Vec<String>)
    ensures
        strings_view(r@) == non_empty_segments(url@),
{
    let mut r: Vec<String> = Vec::new();
    match &url.segments {
        None => r,
        Some(v) => {
            let n = v.len();
            for i in 0..n
                invariant
                    n == v@.len(),
                    url.segments == Some(*v),
                    strings_view(r@) == non_empty(strings_view(v@.take(i as int))),
            {
                assert(strings_view(v@.take(i + 1)).drop_last() =~= strings_view(v@.take(i as int)));
                if !v[i].as_str().is_empty() {
                    r.push(v[i].clone());
                    assert(strings_view(r@) =~= non_empty(strings_view(v@.take(i + 1))));
                } else {
                    assert(v@[i as int]@.len() == 0);
                }
            }
            assert(v@.take(n as int) == v@);
            r
        },
    }
}

} // verus!
