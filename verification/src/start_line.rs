//! The first line of a message: a request line or a status line.

use vstd::prelude::*;
use crate::error::ParseError;
use crate::text::{
    is_token, is_whitespace, lemma_tokens_after_token, lemma_tokens_after_whitespace, split_whitespace, tokens,
    views,
};

verus! {

/// The verbs that a strict reader would know. A request line keeps its
/// method as free text, so a verb outside this list is not refused.
#[derive(Debug, Clone, Copy, PartialEq, Eq, Structural)]
pub enum Method {
    GET,
    POST,
    PUT,
    DELETE,
    PATCH,
    OPTIONS,
}

/// The first three tokens of a request's first line.
#[derive(Debug, Clone, Copy)]
pub struct RequestLine<'a> {
    pub method: &'a str,
    pub uri: &'a str,
    pub version: &'a str,
}

/// What a `RequestLine` holds, as sequences of characters.
pub struct RequestLineView {
    pub method: Seq<char>,
    pub uri: Seq<char>,
    pub version: Seq<char>,
}

impl<'a> View for RequestLine<'a> {
    type V = RequestLineView;

    open spec fn view(&self) -> RequestLineView {
        RequestLineView { method: self.method@, uri: self.uri@, version: self.version@ }
    }
}

/// What the first line of a request is read as: its first three tokens are
/// method, URI and version, further tokens are ignored, and a line with
/// fewer than three tokens is malformed.
pub open spec fn parse_request_line(line: Seq<char>) -> Result<RequestLineView, ParseError> {
    let t = tokens(line);
    if t.len() >= 3 {
        Ok(RequestLineView { method: t[0], uri: t[1], version: t[2] })
    } else {
        Err(ParseError::MalformedStartLine)
    }
}

/// A request line as it is written: three tokens with one space between
/// each two.
pub open spec fn request_line_text(method: Seq<char>, uri: Seq<char>, version: Seq<char>) -> Seq<
    char,
> {
    method + seq![' '] + uri + seq![' '] + version
}

/// A request line written from three tokens is read back as those tokens.
pub proof fn lemma_request_line_round_trip(method: Seq<char>, uri: Seq<char>, version: Seq<char>)
    requires
        is_token(method),
        is_token(uri),
        is_token(version),
    ensures
        tokens(request_line_text(method, uri, version)) == seq![method, uri, version],
        parse_request_line(request_line_text(method, uri, version)) == Ok::<
            RequestLineView,
            ParseError,
        >(RequestLineView { method, uri, version }),
{
    let space = seq![' '];
    let none = Seq::<char>::empty();
    let after_uri = space + version;
    let after_method = space + (uri + after_uri);
    assert(request_line_text(method, uri, version) =~= method + after_method);
    assert(is_whitespace(' '));
    assert(after_uri[0] == ' ');
    assert(after_method[0] == ' ');
    lemma_tokens_after_token(method, after_method);
    lemma_tokens_after_whitespace(' ', uri + after_uri);
    lemma_tokens_after_token(uri, after_uri);
    lemma_tokens_after_whitespace(' ', version);
    assert(version =~= version + none);
    lemma_tokens_after_token(version, none);
    assert(tokens(request_line_text(method, uri, version)) =~= seq![method, uri, version]);
}

impl<'a> RequestLine<'a> {
    /// Reads a request line from the first line of a message.
    pub fn new(start_line: &'a str) -> (r: Result<RequestLine<'a>, ParseError>)
        ensures
            r is Err <==> tokens(start_line@).len() < 3,
            match r {
                Ok(line) => parse_request_line(start_line@) == Ok::<RequestLineView, ParseError>(
                    line@,
                ),
                Err(e) => e == ParseError::MalformedStartLine,
            },
    {
        let elements = split_whitespace(start_line);
        if elements.len() < 3 {
            return Err(ParseError::MalformedStartLine);
        }
        proof {
            assert(views(elements@)[0] == elements@[0]@);
            assert(views(elements@)[1] == elements@[1]@);
            assert(views(elements@)[2] == elements@[2]@);
        }
        Ok(RequestLine { method: elements[0], uri: elements[1], version: elements[2] })
    }
}

/// The first line of a response. Nothing here reads one from a buffer: the
/// type holds what a caller puts in it.
#[derive(Debug)]
pub struct StatusLine {
    pub version: String,
    pub status: String,
}

/// What a `StatusLine` holds, as sequences of characters.
pub struct StatusLineView {
    pub version: Seq<char>,
    pub status: Seq<char>,
}

impl View for StatusLine {
    type V = StatusLineView;

    open spec fn view(&self) -> StatusLineView {
        StatusLineView { version: self.version@, status: self.status@ }
    }
}

/// The first line of a message, of one kind or the other.
#[derive(Debug)]
pub enum StartLine<'a> {
    Request(RequestLine<'a>),
    Response(StatusLine),
}

/// What a `StartLine` holds, as sequences of characters.
pub enum StartLineView {
    Request(RequestLineView),
    Response(StatusLineView),
}

impl<'a> View for StartLine<'a> {
    type V = StartLineView;

    open spec fn view(&self) -> StartLineView {
        match self {
            StartLine::Request(line) => StartLineView::Request(line@),
            StartLine::Response(line) => StartLineView::Response(line@),
        }
    }
}

} // verus!
