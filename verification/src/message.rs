//! The message as a whole: decoding, cutting into lines, and assembly.

use vstd::prelude::*;
use vstd::string::StringSliceAdditionalSpecFns;
use vstd::utf8::*;
use crate::error::ParseError;
use crate::headers::{header_map, Headers};
use crate::start_line::{
    lemma_request_line_round_trip, parse_request_line, request_line_text, RequestLine,
    RequestLineView, StartLine, StartLineView,
};
use crate::text::{
    is_token, is_whitespace, lemma_first_match_after, lemma_pieces_unfold, pieces, split, tokens,
    views,
};

verus! {

/// The error of `core::str::from_utf8`, carried through without a look inside.
#[verifier::external_type_specification]
#[verifier::external_body]
pub struct ExUtf8Error(core::str::Utf8Error);

/// `core::str::from_utf8` accepts exactly the byte sequences that are valid
/// UTF-8, and the string slice it returns has the bytes it was given.
pub assume_specification<'a>[ core::str::from_utf8 ](v: &'a [u8]) -> (r: Result<
    &'a str,
    core::str::Utf8Error,
>)
    ensures
        r is Ok <==> valid_utf8(v@),
        r matches Ok(s) ==> s.spec_bytes() == v@,
;

/// Decodes a buffer as UTF-8 text. Nothing is replaced: a buffer that is
/// not valid UTF-8 is refused.
pub fn decode<'a>(bytes: &'a [u8]) -> (r: Result<&'a str, ParseError>)
    ensures
        match r {
            Ok(s) => valid_utf8(bytes@) && s@ == decode_utf8(bytes@),
            Err(e) => !valid_utf8(bytes@) && e == ParseError::EncodingError,
        },
{
    match core::str::from_utf8(bytes) {
        Ok(s) => {
            proof {
                encode_utf8_decode_utf8(s@);
            }
            Ok(s)
        },
        Err(_) => Err(ParseError::EncodingError),
    }
}

/// What separates the lines of a message: carriage return, line feed.
pub open spec fn line_separator() -> Seq<char> {
    seq!['\r', '\n']
}

/// The lines of a text: its pieces between the line separators.
pub open spec fn lines_of(text: Seq<char>) -> Seq<Seq<char>> {
    pieces(text, line_separator())
}

/// The lines that are read as headers: those after the first and before
/// the last.
pub open spec fn header_lines(lines: Seq<Seq<char>>) -> Seq<Seq<char>> {
    if lines.len() >= 2 {
        lines.subrange(1, lines.len() - 1)
    } else {
        Seq::empty()
    }
}

/// What a `Message` holds.
pub struct MessageView {
    pub start_line: StartLineView,
    pub headers: Map<Seq<char>, Option<Seq<char>>>,
    pub content: Seq<char>,
    pub original_message: Seq<u8>,
}

/// What a buffer is read as. The first line is a request line, the last
/// line is the content, and the lines between them are headers. A buffer
/// with a single line has that line as its request line and as its content.
pub open spec fn parse_message(bytes: Seq<u8>) -> Result<MessageView, ParseError> {
    if !valid_utf8(bytes) {
        Err(ParseError::EncodingError)
    } else {
        let lines = lines_of(decode_utf8(bytes));
        match parse_request_line(lines.first()) {
            Ok(line) => Ok(
                MessageView {
                    start_line: StartLineView::Request(line),
                    headers: header_map(header_lines(lines)),
                    content: lines.last(),
                    original_message: bytes,
                },
            ),
            Err(e) => Err(e),
        }
    }
}

/// A message whose first line is written from three tokens is accepted,
/// and its request line holds those tokens, whatever follows the line.
pub proof fn lemma_message_recovers_request_line(
    method: Seq<char>,
    uri: Seq<char>,
    version: Seq<char>,
    rest: Seq<char>,
)
    requires
        is_token(method),
        is_token(uri),
        is_token(version),
    ensures
        ({
            let text = request_line_text(method, uri, version) + line_separator() + rest;
            &&& parse_message(encode_utf8(text)) matches Ok(m)
            &&& m.start_line == StartLineView::Request(RequestLineView { method, uri, version })
        }),
{
    let line = request_line_text(method, uri, version);
    let text = line + line_separator() + rest;
    encode_utf8_valid_utf8(text);
    encode_utf8_decode_utf8(text);
    assert(is_whitespace('\r'));
    assert forall|i: int| 0 <= i < line.len() implies #[trigger] line[i] != '\r' by {
        if i < method.len() {
            assert(line[i] == method[i]);
        } else if i == method.len() {
        } else if i < method.len() + 1 + uri.len() {
            assert(line[i] == uri[i - method.len() - 1]);
        } else if i == method.len() + 1 + uri.len() {
        } else {
            assert(line[i] == version[i - method.len() - uri.len() - 2]);
        }
    }
    lemma_first_match_after(line, line_separator(), rest);
    lemma_pieces_unfold(text, line_separator());
    assert(text.subrange(0, line.len() as int) =~= line);
    lemma_request_line_round_trip(method, uri, version);
}

/// Two outcomes of parsing one buffer are equal, field for field.
pub proof fn lemma_same_buffer_same_message(
    bytes: Seq<u8>,
    first: Result<Message, ParseError>,
    second: Result<Message, ParseError>,
)
    requires
        result_view(first) == parse_message(bytes),
        result_view(second) == parse_message(bytes),
    ensures
        result_view(first) == result_view(second),
        first is Ok <==> second is Ok,
        first matches Ok(a) ==> second matches Ok(b) && a@ == b@,
        first matches Err(e) ==> second matches Err(f) && e == f,
{
}

/// The lines of a decoded text.
pub fn split_lines<'a>(text: &'a str) -> (lines: Vec<&'a str>)
    ensures
        views(lines@) == lines_of(text@),
        lines@.len() >= 1,
{
    proof {
        reveal_strlit("\r\n");
        assert("\r\n"@ =~= line_separator());
        lemma_pieces_unfold(text@, line_separator());
    }
    let lines = split(text, "\r\n");
    assert(views(lines@).len() == lines@.len());
    lines
}

/// A parsed message: views into the buffer it was read from.
#[derive(Debug)]
pub struct Message<'a> {
    start_line: StartLine<'a>,
    headers: Headers<'a>,
    content: &'a str,
    original_message: &'a [u8],
}

impl<'a> View for Message<'a> {
    type V = MessageView;

    closed spec fn view(&self) -> MessageView {
        MessageView {
            start_line: self.start_line@,
            headers: self.headers@,
            content: self.content@,
            original_message: self.original_message@,
        }
    }
}

/// The outcome of parsing, with the message taken by its view.
pub open spec fn result_view(r: Result<Message, ParseError>) -> Result<MessageView, ParseError> {
    match r {
        Ok(m) => Ok(m@),
        Err(e) => Err(e),
    }
}

impl<'a> Message<'a> {
    #[verifier::type_invariant]
    spec fn derived_from_original(&self) -> bool {
        parse_message(self.original_message@) == Ok::<MessageView, ParseError>(self@)
    }

    /// Parses a buffer that holds one complete message.
    pub fn try_from(bytes: &'a Vec<u8>) -> (r: Result<Message<'a>, ParseError>)
        ensures
            result_view(r) == parse_message(bytes@),
            r matches Err(ParseError::EncodingError) <==> !valid_utf8(bytes@),
            r matches Err(ParseError::MalformedStartLine) <==> valid_utf8(bytes@) && tokens(
                lines_of(decode_utf8(bytes@)).first(),
            ).len() < 3,
            r matches Ok(m) ==> m@.original_message == bytes@,
    {
        let original_message = bytes.as_slice();
        let text = match decode(original_message) {
            Ok(text) => text,
            Err(e) => { return Err(e); },
        };
        let lines = split_lines(text);
        let n: usize = lines.len();
        proof {
            assert(views(lines@).first() == lines@[0]@);
            assert(views(lines@).last() == lines@[n - 1]@);
        }
        let request_line = match RequestLine::new(lines[0]) {
            Ok(line) => line,
            Err(e) => { return Err(e); },
        };
        let end: usize = if n >= 2 { n - 1 } else { 1 };
        let between = vstd::slice::slice_subrange(lines.as_slice(), 1, end);
        proof {
            assert(views(between@) =~= header_lines(views(lines@)));
        }
        let headers = Headers::new(between);
        let content = lines[n - 1];
        Ok(
            Message {
                start_line: StartLine::Request(request_line),
                headers,
                content,
                original_message,
            },
        )
    }

    /// The first line.
    pub fn start_line(&self) -> (r: &StartLine<'a>)
        ensures
            r@ == self@.start_line,
            parse_message(self@.original_message) == Ok::<MessageView, ParseError>(self@),
    {
        proof {
            use_type_invariant(self);
        }
        &self.start_line
    }

    /// The header table.
    pub fn headers(&self) -> (r: &Headers<'a>)
        ensures
            r@ == self@.headers,
            parse_message(self@.original_message) == Ok::<MessageView, ParseError>(self@),
    {
        proof {
            use_type_invariant(self);
        }
        &self.headers
    }

    /// The body: the last line of the buffer.
    pub fn content(&self) -> (r: &'a str)
        ensures
            r@ == self@.content,
            parse_message(self@.original_message) == Ok::<MessageView, ParseError>(self@),
    {
        proof {
            use_type_invariant(self);
        }
        self.content
    }

    /// The buffer that the message was read from, unchanged.
    pub fn original_message(&self) -> (r: &'a [u8])
        ensures
            r@ == self@.original_message,
            parse_message(self@.original_message) == Ok::<MessageView, ParseError>(self@),
    {
        proof {
            use_type_invariant(self);
        }
        self.original_message
    }
}

} // verus!
