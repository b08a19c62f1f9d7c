use http_message::scan::{utf8_len, Scan};

#[test]
fn utf8_len_is_the_length_of_the_encoding() {
    for c in '\0'..=char::MAX {
        assert_eq!(utf8_len(c), c.len_utf8(), "at {:?}", c);
    }
}

#[test]
fn utf8_len_changes_at_the_known_bounds() {
    assert_eq!(utf8_len('\u{7f}'), 1);
    assert_eq!(utf8_len('\u{80}'), 2);
    assert_eq!(utf8_len('\u{7ff}'), 2);
    assert_eq!(utf8_len('\u{800}'), 3);
    assert_eq!(utf8_len('\u{ffff}'), 3);
    assert_eq!(utf8_len('\u{10000}'), 4);
    assert_eq!(utf8_len('\u{10ffff}'), 4);
}

#[test]
fn scan_lists_the_characters() {
    let scan = Scan::new("a\u{e9}\u{20ac}\u{1f600}z");
    assert_eq!(scan.chars(), &['a', '\u{e9}', '\u{20ac}', '\u{1f600}', 'z']);
    let empty = Scan::new("");
    assert_eq!(empty.chars().len(), 0);
}

#[test]
fn slice_counts_characters_not_bytes() {
    let text = "a\u{e9}\u{20ac}\u{1f600}z";
    let scan = Scan::new(text);
    assert_eq!(scan.slice(0, 5), text);
    assert_eq!(scan.slice(0, 0), "");
    assert_eq!(scan.slice(5, 5), "");
    assert_eq!(scan.slice(1, 2), "\u{e9}");
    assert_eq!(scan.slice(2, 4), "\u{20ac}\u{1f600}");
    assert_eq!(scan.slice(3, 5), "\u{1f600}z");
    assert_eq!(scan.slice(0, 1), "a");
}

#[test]
fn slice_agrees_with_the_characters_it_covers() {
    let text = "GET /caf\u{e9} HTTP/1.1\r\nX: \u{65e5}\u{672c}\r\n\r\n\u{1f600}";
    let scan = Scan::new(text);
    let chars: Vec<char> = text.chars().collect();
    for from in 0..=chars.len() {
        for to in from..=chars.len() {
            let expected: String = chars[from..to].iter().collect();
            assert_eq!(scan.slice(from, to), expected);
        }
    }
}

#[test]
fn slice_is_a_view_into_the_text() {
    let text = String::from("h\u{e9}llo w\u{f6}rld");
    let scan = Scan::new(&text);
    let piece = scan.slice(6, 11);
    assert_eq!(piece, "w\u{f6}rld");
    let start = text.as_ptr() as usize;
    let at = piece.as_ptr() as usize;
    assert_eq!(at - start, 7);
}
