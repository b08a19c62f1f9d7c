use http_message::error::ParseError;
use http_message::message::{decode, split_lines, Message};
use http_message::start_line::StartLine;

const REQUEST: &str = "GET / HTTP/1.1\r\nHost: localhost:7878\r\nConnection: keep-alive\r\nPragma: no-cache\r\nCache-Control: no-cache\r\nUpgrade-Insecure-Requests: 1\r\nAccept-Encoding: gzip, deflate, br\r\n\r\n";

fn bytes_of(text: &str) -> Vec<u8> {
    text.as_bytes().to_vec()
}

#[test]
fn from_request_method() {
    let request = bytes_of(REQUEST);

    let message = Message::try_from(&request).unwrap();

    match message.start_line() {
        StartLine::Request(request_line) => {
            assert_eq!(String::from("GET"), request_line.method)
        }
        _ => unreachable!("Oops, shouldn't be here!"),
    }
}

#[test]
fn from_request_uri() {
    let request = bytes_of(REQUEST);

    let message = Message::try_from(&request).unwrap();

    match message.start_line() {
        StartLine::Request(request_line) => assert_eq!(String::from("/"), request_line.uri),
        _ => unreachable!("Oops, shouldn't be here!"),
    }
}

#[test]
fn from_request_version() {
    let request = bytes_of(REQUEST);

    let message = Message::try_from(&request).unwrap();

    match message.start_line() {
        StartLine::Request(request_line) => {
            assert_eq!(String::from("HTTP/1.1"), request_line.version)
        }
        _ => unreachable!("Oops, shouldn't be here!"),
    }
}

#[test]
fn request_with_headers_and_empty_body() {
    let request = bytes_of("GET / HTTP/1.1\r\nHost: localhost:7878\r\n\r\n");
    let message = Message::try_from(&request).unwrap();
    match message.start_line() {
        StartLine::Request(line) => {
            assert_eq!(line.method, "GET");
            assert_eq!(line.uri, "/");
            assert_eq!(line.version, "HTTP/1.1");
        }
        StartLine::Response(_) => panic!("a request was parsed as a response"),
    }
    assert_eq!(message.headers().get("Host"), Some("localhost:7878"));
    assert_eq!(message.content(), "");
    assert_eq!(message.original_message(), request.as_slice());
}

#[test]
fn request_with_body() {
    let request = bytes_of("POST /submit HTTP/1.1\r\nContent-Type: text/plain\r\n\r\nhello");
    let message = Message::try_from(&request).unwrap();
    match message.start_line() {
        StartLine::Request(line) => {
            assert_eq!(line.method, "POST");
            assert_eq!(line.uri, "/submit");
            assert_eq!(line.version, "HTTP/1.1");
        }
        StartLine::Response(_) => panic!("a request was parsed as a response"),
    }
    assert_eq!(message.headers().get("Content-Type"), Some("text/plain"));
    assert_eq!(message.content(), "hello");
}

#[test]
fn start_line_with_one_token_is_malformed() {
    let request = bytes_of("BADLINE\r\n\r\n");
    assert_eq!(Message::try_from(&request).err(), Some(ParseError::MalformedStartLine));
}

#[test]
fn start_line_with_two_tokens_is_malformed() {
    let request = bytes_of("GET /\r\nHost: a\r\n\r\n");
    assert_eq!(Message::try_from(&request).err(), Some(ParseError::MalformedStartLine));
}

#[test]
fn empty_buffer_is_malformed() {
    let request: Vec<u8> = Vec::new();
    assert_eq!(Message::try_from(&request).err(), Some(ParseError::MalformedStartLine));
}

#[test]
fn lone_continuation_byte_is_an_encoding_error() {
    let request: Vec<u8> = vec![0x80];
    assert_eq!(Message::try_from(&request).err(), Some(ParseError::EncodingError));
}

#[test]
fn invalid_byte_after_a_good_request_line_is_an_encoding_error() {
    let mut request = bytes_of("GET / HTTP/1.1\r\nHost: ");
    request.push(0xff);
    request.extend_from_slice(b"\r\n\r\n");
    assert_eq!(Message::try_from(&request).err(), Some(ParseError::EncodingError));
}

#[test]
fn truncated_sequence_is_an_encoding_error() {
    let request: Vec<u8> = vec![b'G', b'E', b'T', b' ', 0xe2, 0x82];
    assert_eq!(Message::try_from(&request).err(), Some(ParseError::EncodingError));
}

#[test]
fn encoding_is_checked_before_the_start_line() {
    let request: Vec<u8> = vec![b'B', b'A', b'D', 0xc0];
    assert_eq!(Message::try_from(&request).err(), Some(ParseError::EncodingError));
}

#[test]
fn header_without_colon_has_no_value() {
    let request = bytes_of("GET / HTTP/1.1\r\nX-Flag\r\n\r\n");
    let message = Message::try_from(&request).unwrap();
    assert_eq!(message.headers().get("X-Flag"), None);
    assert!(message.headers().contains("X-Flag"));
}

#[test]
fn blank_line_is_a_name_without_value() {
    let request = bytes_of("GET / HTTP/1.1\r\nHost: a\r\n\r\n");
    let message = Message::try_from(&request).unwrap();
    assert!(message.headers().contains(""));
    assert_eq!(message.headers().get(""), None);
}

#[test]
fn last_line_is_not_a_header() {
    let request = bytes_of("GET / HTTP/1.1\r\nHost: a\r\nBody: b");
    let message = Message::try_from(&request).unwrap();
    assert_eq!(message.headers().get("Host"), Some("a"));
    assert!(!message.headers().contains("Body"));
    assert_eq!(message.content(), "Body: b");
}

#[test]
fn single_line_is_request_line_and_content() {
    let request = bytes_of("GET / HTTP/1.1");
    let message = Message::try_from(&request).unwrap();
    match message.start_line() {
        StartLine::Request(line) => assert_eq!(line.version, "HTTP/1.1"),
        StartLine::Response(_) => panic!("a request was parsed as a response"),
    }
    assert_eq!(message.content(), "GET / HTTP/1.1");
    assert!(!message.headers().contains(""));
    assert!(!message.headers().contains("GET / HTTP/1.1"));
}

#[test]
fn two_lines_leave_no_header() {
    let request = bytes_of("GET / HTTP/1.1\r\nHost: a");
    let message = Message::try_from(&request).unwrap();
    assert!(!message.headers().contains("Host"));
    assert_eq!(message.content(), "Host: a");
}

#[test]
fn body_keeps_only_its_last_line() {
    let request = bytes_of("PUT /f HTTP/1.0\r\nA: 1\r\n\r\nfirst\r\nsecond");
    let message = Message::try_from(&request).unwrap();
    assert_eq!(message.content(), "second");
    assert!(message.headers().contains("first"));
    assert_eq!(message.headers().get("A"), Some("1"));
}

#[test]
fn bare_line_feed_does_not_end_a_line() {
    let request = bytes_of("GET / HTTP/1.1\nHost: a\n\n");
    let message = Message::try_from(&request).unwrap();
    match message.start_line() {
        StartLine::Request(line) => {
            assert_eq!(line.method, "GET");
            assert_eq!(line.uri, "/");
            assert_eq!(line.version, "HTTP/1.1");
        }
        StartLine::Response(_) => panic!("a request was parsed as a response"),
    }
    assert!(!message.headers().contains("Host"));
    assert_eq!(message.content(), "GET / HTTP/1.1\nHost: a\n\n");
}

#[test]
fn duplicate_header_takes_the_last_value() {
    let request = bytes_of("GET / HTTP/1.1\r\nAccept: a\r\nHost: h\r\nAccept: b\r\n\r\n");
    let message = Message::try_from(&request).unwrap();
    assert_eq!(message.headers().get("Accept"), Some("b"));
    assert_eq!(message.headers().get("Host"), Some("h"));
}

#[test]
fn text_beyond_ascii_is_kept() {
    let request = bytes_of("GET /caf\u{e9} HTTP/1.1\r\nX-Name: \u{65e5}\u{672c}\u{8a9e}\r\n\r\n\u{1f600}");
    let message = Message::try_from(&request).unwrap();
    match message.start_line() {
        StartLine::Request(line) => assert_eq!(line.uri, "/caf\u{e9}"),
        StartLine::Response(_) => panic!("a request was parsed as a response"),
    }
    assert_eq!(message.headers().get("X-Name"), Some("\u{65e5}\u{672c}\u{8a9e}"));
    assert_eq!(message.content(), "\u{1f600}");
}

#[test]
fn parsing_twice_gives_the_same_message() {
    let request = bytes_of("POST /a?b=c HTTP/1.1\r\nHost: h\r\nX-Flag\r\nHost: i\r\n\r\nbody");
    let first = Message::try_from(&request).unwrap();
    let second = Message::try_from(&request).unwrap();
    match (first.start_line(), second.start_line()) {
        (StartLine::Request(a), StartLine::Request(b)) => {
            assert_eq!(a.method, b.method);
            assert_eq!(a.uri, b.uri);
            assert_eq!(a.version, b.version);
        }
        _ => panic!("a request was parsed as a response"),
    }
    for name in ["Host", "X-Flag", "", "Missing"] {
        assert_eq!(first.headers().contains(name), second.headers().contains(name));
        assert_eq!(first.headers().get(name), second.headers().get(name));
    }
    assert_eq!(first.content(), second.content());
    assert_eq!(first.original_message(), second.original_message());
}

#[test]
fn parsing_twice_gives_the_same_error() {
    let request = bytes_of("ONLY TWO\r\n");
    assert_eq!(Message::try_from(&request).err(), Message::try_from(&request).err());
    let request: Vec<u8> = vec![0xf8, 0x80];
    assert_eq!(Message::try_from(&request).err(), Message::try_from(&request).err());
}

#[test]
fn original_message_is_the_buffer() {
    let request = bytes_of(REQUEST);
    let message = Message::try_from(&request).unwrap();
    assert_eq!(message.original_message(), REQUEST.as_bytes());
}

#[test]
fn decode_gives_the_text_of_the_bytes() {
    assert_eq!(decode("h\u{e9}llo".as_bytes()), Ok("h\u{e9}llo"));
    assert_eq!(decode(b""), Ok(""));
    assert_eq!(decode(&[0x61, 0xe2, 0x82, 0xac]), Ok("a\u{20ac}"));
}

#[test]
fn decode_refuses_what_is_not_text() {
    assert_eq!(decode(&[0x80]), Err(ParseError::EncodingError));
    assert_eq!(decode(&[0xc0, 0xaf]), Err(ParseError::EncodingError));
    assert_eq!(decode(&[0xed, 0xa0, 0x80]), Err(ParseError::EncodingError));
    assert_eq!(decode(&[0xf4, 0x90, 0x80, 0x80]), Err(ParseError::EncodingError));
}

#[test]
fn split_lines_cuts_at_carriage_return_line_feed() {
    assert_eq!(split_lines("a\r\nb\r\n\r\nc"), vec!["a", "b", "", "c"]);
    assert_eq!(split_lines(""), vec![""]);
    assert_eq!(split_lines("\r\n"), vec!["", ""]);
    assert_eq!(split_lines("a\rb\nc"), vec!["a\rb\nc"]);
    assert_eq!(split_lines("a\r\r\nb"), vec!["a\r", "b"]);
}

#[test]
fn fields_are_views_into_the_buffer() {
    let request = bytes_of("POST /p HTTP/1.1\r\nHost: h\r\n\r\nbody");
    let message = Message::try_from(&request).unwrap();
    let start = request.as_ptr() as usize;
    let end = start + request.len();
    let within = |s: &str| {
        let at = s.as_ptr() as usize;
        start <= at && at + s.len() <= end
    };
    match message.start_line() {
        StartLine::Request(line) => {
            assert!(within(line.method));
            assert!(within(line.uri));
            assert!(within(line.version));
        }
        StartLine::Response(_) => panic!("a request was parsed as a response"),
    }
    assert!(within(message.headers().get("Host").unwrap()));
    assert!(within(message.content()));
    assert_eq!(message.original_message().as_ptr() as usize, start);
}
