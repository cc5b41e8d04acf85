//! A request as the router sees it: its verb, its target, and what the
//! matched route captured of its path.

use crate::boundary::{lemma_ascii_byte_is_character, lemma_boundary_of_prefix};
use crate::text::{find_from, first_occurrence, is_first_occurrence};
use crate::tree::node::{ranges_of, spans_of};
use crate::tree::pattern::is_text_range;
use crate::tree::trie::all_text_ranges;
use vstd::prelude::*;
use vstd::string::StringSliceAdditionalSpecFns;
use vstd::utf8::{
    encode_utf8, encode_utf8_valid_utf8, is_char_boundary, is_char_boundary_start_end_of_seq,
    valid_utf8, valid_utf8_split,
};

verus! {

/// The verb of a request.
#[derive(Clone, Copy, Debug, PartialEq, Eq, Structural)]
pub enum Method {
    Get,
    Post,
    Put,
    Patch,
    Delete,
    Head,
    /// Any verb that has no route table.
    Other,
}

/// The target of a request.
#[derive(Debug)]
pub enum RequestUri {
    /// A path with an optional query behind a question mark.
    AbsolutePath(String),
    /// An absolute URI, of which the path and the query are kept.
    AbsoluteUri { path: String, query: Option<String> },
    /// An authority, as a tunnel request names it.
    Authority(String),
    /// The asterisk that stands for the whole server.
    Star,
}

/// The question mark.
pub const QUERY_MARK: u8 = 63;

/// The position of the first question mark of a target.
pub open spec fn query_mark(target: Seq<u8>) -> Option<int> {
    first_occurrence(target, seq![QUERY_MARK], 0)
}

impl RequestUri {
    /// The target has a path.
    pub open spec fn has_path(self) -> bool {
        self is AbsolutePath || self is AbsoluteUri
    }

    /// The path of the target: what stands before the first question mark
    /// of a path target, and the path of an absolute URI.
    pub open spec fn path_bytes(self) -> Seq<u8> {
        match self {
            RequestUri::AbsolutePath(target) => {
                let bytes = encode_utf8(target@);
                match query_mark(bytes) {
                    Some(at) => bytes.subrange(0, at),
                    None => bytes,
                }
            },
            RequestUri::AbsoluteUri { path, .. } => encode_utf8(path@),
            _ => Seq::empty(),
        }
    }

    /// The query of the target: what stands behind the first question mark
    /// of a path target, and the query of an absolute URI.
    pub open spec fn query_bytes(self) -> Option<Seq<u8>> {
        match self {
            RequestUri::AbsolutePath(target) => {
                let bytes = encode_utf8(target@);
                match query_mark(bytes) {
                    Some(at) => Some(bytes.subrange(at + 1, bytes.len() as int)),
                    None => None,
                }
            },
            RequestUri::AbsoluteUri { query, .. } => match query {
                Some(text) => Some(encode_utf8(text@)),
                None => None,
            },
            _ => None,
        }
    }
}

/// What the router keeps with a request: where the path of its target ends
/// and the query starts, and the ranges that the matched route captured.
#[derive(Debug)]
pub struct RequestExtensions {
    path_delims: Option<(usize, Option<usize>)>,
    capture_delims: Option<Vec<(usize, usize)>>,
}

/// A request on its way to a handler.
#[derive(Debug)]
pub struct Request {
    method: Method,
    uri: RequestUri,
    extensions: RequestExtensions,
}

/// What a request holds.
pub struct RequestView {
    pub method: Method,
    pub uri: RequestUri,
    /// The captured byte ranges of the path, from left to right.
    pub spans: Option<Seq<(int, int)>>,
}

/// The delimiters that are kept for a path target.
pub open spec fn delims_of(target: Seq<u8>) -> (usize, Option<usize>) {
    match query_mark(target) {
        Some(at) => (at as usize, Some((at + 1) as usize)),
        None => (target.len() as usize, None),
    }
}

impl View for Request {
    type V = RequestView;

    closed spec fn view(&self) -> RequestView {
        RequestView {
            method: self.method,
            uri: self.uri,
            spans: spans_of(self.extensions.capture_delims),
        }
    }
}

impl Request {
    #[verifier::type_invariant]
    spec fn well_formed(self) -> bool {
        &&& match self.uri {
            RequestUri::AbsolutePath(target) => {
                &&& encode_utf8(target@).len() <= usize::MAX
                &&& self.extensions.path_delims == Some(delims_of(encode_utf8(target@)))
            },
            _ => self.extensions.path_delims is None,
        }
        &&& self.extensions.capture_delims is Some ==> self.uri.has_path()
        &&& all_text_ranges(self.uri.path_bytes(), spans_of(self.extensions.capture_delims))
    }

    /// A request with the given verb and target, and nothing captured.
    pub fn from(method: Method, uri: RequestUri) -> (request: Request)
        ensures
            request@ == (RequestView { method, uri, spans: None }),
    {
        let path_delims = match &uri {
            RequestUri::AbsolutePath(target) => {
                let bytes = target.as_str().as_bytes();
                let end = bytes.len();
                let mark: [u8; 1] = [QUERY_MARK];
                assert(mark@ =~= seq![QUERY_MARK]);
                match find_from(bytes, mark.as_slice(), 0) {
                    Some(pos) => {
                        assert(is_first_occurrence(bytes@, seq![QUERY_MARK], 0, pos as int));
                        Some((pos, Some(pos + 1)))
                    },
                    None => Some((end, None)),
                }
            },
            _ => None,
        };
        proof {
            if uri is AbsolutePath {
                assert(path_delims == Some(delims_of(encode_utf8(uri->AbsolutePath_0@))));
            }
        }
        Request { method, uri, extensions: RequestExtensions { path_delims, capture_delims: None } }
    }

    /// The verb of the request.
    pub fn method(&self) -> (method: Method)
        ensures
            method == self@.method,
    {
        self.method
    }

    /// The target of the request.
    pub fn uri(&self) -> (uri: &RequestUri)
        ensures
            *uri == self@.uri,
    {
        &self.uri
    }

    /// The path of the target.
    pub fn path(&self) -> (path: &str)
        requires
            self@.uri.has_path(),
        ensures
            path.spec_bytes() == self@.uri.path_bytes(),
    {
        proof {
            use_type_invariant(self);
        }
        match &self.uri {
            RequestUri::AbsolutePath(target) => {
                let pos = self.extensions.path_delims.expect("Path end delim must be set").0;
                proof {
                    encode_utf8_valid_utf8(target@);
                    lemma_path_delims(encode_utf8(target@));
                }
                let (path, _) = target.as_str().split_at(pos);
                path
            },
            RequestUri::AbsoluteUri { path, .. } => path.as_str(),
            _ => {
                proof {
                    assert(false);
                }
                ""
            },
        }
    }

    /// The query of the target, if it has one.
    pub fn query(&self) -> (query: Option<&str>)
        requires
            self@.uri.has_path(),
        ensures
            match query {
                Some(text) => self@.uri.query_bytes() == Some(text.spec_bytes()),
                None => self@.uri.query_bytes() is None,
            },
    {
        proof {
            use_type_invariant(self);
        }
        match &self.uri {
            RequestUri::AbsolutePath(target) => {
                proof {
                    encode_utf8_valid_utf8(target@);
                    lemma_path_delims(encode_utf8(target@));
                }
                match self.extensions.path_delims.expect("Path end delim must be set").1 {
                    Some(pos) => {
                        let (_, query) = target.as_str().split_at(pos);
                        Some(query)
                    },
                    None => None,
                }
            },
            RequestUri::AbsoluteUri { query, .. } => match query {
                Some(text) => Some(text.as_str()),
                None => None,
            },
            _ => {
                proof {
                    assert(false);
                }
                None
            },
        }
    }

    /// What the matched route captured of the path, from left to right.
    /// Without a matched route nothing is captured.
    pub fn captures(&self) -> (captures: Vec<&str>)
        ensures
            match self@.spans {
                Some(spans) => {
                    &&& captures.len() == spans.len()
                    &&& forall|i: int|
                        0 <= i < spans.len() ==> (#[trigger] captures[i]).spec_bytes()
                            == self@.uri.path_bytes().subrange(spans[i].0, spans[i].1)
                },
                None => captures.len() == 0,
            },
    {
        proof {
            use_type_invariant(self);
        }
        let mut captures: Vec<&str> = Vec::new();
        match &self.extensions.capture_delims {
            Some(list) => {
                let path = self.path();
                let ghost bytes = path.spec_bytes();
                let ghost spans = ranges_of(list@);
                proof {
                    lemma_path_is_text(self.uri);
                }
                let mut i: usize = 0;
                while i < list.len()
                    invariant
                        i <= list.len(),
                        bytes == path.spec_bytes(),
                        valid_utf8(bytes),
                        spans == ranges_of(list@),
                        forall|k: int| 0 <= k < spans.len() ==> is_text_range(bytes, #[trigger] spans[k]),
                        captures.len() == i,
                        forall|k: int|
                            0 <= k < i ==> (#[trigger] captures[k]).spec_bytes() == bytes.subrange(
                                spans[k].0,
                                spans[k].1,
                            ),
                    decreases list.len() - i,
                {
                    let (d0, d1) = list[i];
                    proof {
                        assert(is_text_range(bytes, spans[i as int]));
                        lemma_boundary_of_prefix(bytes, d1 as int, d0 as int);
                    }
                    let (head, _) = path.split_at(d1);
                    let (_, capture) = head.split_at(d0);
                    assert(capture.spec_bytes() =~= bytes.subrange(d0 as int, d1 as int));
                    captures.push(capture);
                    i += 1;
                }
            },
            None => {},
        }
        captures
    }

    /// The request with nothing captured.
    pub(crate) fn without_captures(self) -> (request: Request)
        ensures
            request@ == (RequestView { spans: None, ..self@ }),
    {
        proof {
            use_type_invariant(&self);
        }
        Request {
            method: self.method,
            uri: self.uri,
            extensions: RequestExtensions {
                path_delims: self.extensions.path_delims,
                capture_delims: None,
            },
        }
    }

    /// The request with the ranges that a route captured of its path.
    pub(crate) fn with_captures(self, captures: Option<Vec<(usize, usize)>>) -> (request: Request)
        requires
            self@.uri.has_path(),
            all_text_ranges(self@.uri.path_bytes(), spans_of(captures)),
        ensures
            request@ == (RequestView { spans: spans_of(captures), ..self@ }),
    {
        proof {
            use_type_invariant(&self);
        }
        Request {
            method: self.method,
            uri: self.uri,
            extensions: RequestExtensions {
                path_delims: self.extensions.path_delims,
                capture_delims: captures,
            },
        }
    }
}

/// The path of a target is text.
pub proof fn lemma_path_is_text(uri: RequestUri)
    ensures
        valid_utf8(uri.path_bytes()),
{
    match uri {
        RequestUri::AbsolutePath(target) => {
            let bytes = encode_utf8(target@);
            encode_utf8_valid_utf8(target@);
            if let Some(at) = query_mark(bytes) {
                assert(is_first_occurrence(bytes, seq![QUERY_MARK], 0, at));
                lemma_ascii_byte_is_character(bytes, QUERY_MARK, at);
                valid_utf8_split(bytes, at);
            }
        },
        RequestUri::AbsoluteUri { path, .. } => {
            encode_utf8_valid_utf8(path@);
        },
        _ => {},
    }
}

/// The delimiters of a path target lie between characters.
proof fn lemma_path_delims(target: Seq<u8>)
    requires
        valid_utf8(target),
        target.len() <= usize::MAX,
    ensures
        is_char_boundary(target, delims_of(target).0 as int),
        match query_mark(target) {
            Some(at) => delims_of(target) == (at as usize, Some((at + 1) as usize)) && 0 <= at
                < target.len() && is_char_boundary(target, at + 1),
            None => delims_of(target) == (target.len() as usize, None::<usize>),
        },
{
    match query_mark(target) {
        Some(at) => {
            assert(is_first_occurrence(target, seq![QUERY_MARK], 0, at));
            lemma_ascii_byte_is_character(target, QUERY_MARK, at);
        },
        None => {
            is_char_boundary_start_end_of_seq(target);
        },
    }
}

} // verus!
