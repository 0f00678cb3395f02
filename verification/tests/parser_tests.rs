use mbox::io::{FailingSource, MemorySource};
use mbox::mbox::Marker;
use mbox::{make_message, make_messages, BUF_SIZE, ParseError, Parser};
use std::io::ErrorKind;

fn source(text: &str) -> MemorySource {
    MemorySource::new(text.as_bytes().to_vec())
}

#[test]
fn test_get_messages() {
    let mut parser = Parser::new(source("From abc"));
    let result = parser.get_messages().unwrap();
    assert_eq!(vec!["From abc"], result);

    let mut parser = Parser::new(source("From abc\n\nFrom cde"));
    let result = parser.get_messages().unwrap();
    assert_eq!(vec!["From abc", "From cde"], result);
}

#[test]
fn test_get_messages_small_buffer() {
    let msg = "From abc\n\nFrom cde\n\nFrom xyz\n\nFrom zzt";
    let mut parser = Parser::with_buf_size(source(msg), 15);
    let result = parser.get_messages().unwrap();
    assert_eq!(vec!["From abc", "From cde", "From xyz", "From zzt"], result);
}

#[test]
fn test_get_messages_with_io_error() {
    let mut parser = Parser::new(FailingSource::new(ErrorKind::Other.into()));
    let result = parser.get_messages();
    assert!(matches!(result, Err(ParseError::ReadError(i)) if i.kind() == ErrorKind::Other));
}

#[test]
fn test_get_messages_without_leading_from() {
    let mut parser = Parser::new(source("No From in the beginning"));
    assert!(matches!(
        parser.get_messages(),
        Err(ParseError::MissingFirstFrom)
    ));
}

#[test]
fn default_window_size() {
    assert_eq!(8192, BUF_SIZE);
}

#[test]
fn lines_are_split_at_line_feeds() {
    let mut parser = Parser::new(source("foo\nbar\nbaz"));
    assert_eq!(vec!["foo", "bar", "baz"], parser.get_lines().unwrap());
}

#[test]
fn last_line_comes_from_the_flush_only() {
    let mut parser = Parser::new(source("foo\nbar\nbaz"));
    let records = parser.get_records(&Marker::line_feed()).unwrap();
    assert_eq!(vec![b"foo".to_vec(), b"bar".to_vec(), b"baz".to_vec()], records);
    // A line feed at the end leaves nothing to flush.
    let mut parser = Parser::new(source("foo\nbar\n"));
    assert_eq!(vec!["foo", "bar"], parser.get_lines().unwrap());
}

#[test]
fn empty_input_gives_no_record() {
    let mut parser = Parser::new(source(""));
    assert_eq!(Vec::<String>::new(), parser.get_messages().unwrap());
    let mut parser = Parser::new(source(""));
    assert_eq!(Vec::<String>::new(), parser.get_lines().unwrap());
}

#[test]
fn empty_lines_are_records() {
    let mut parser = Parser::new(source("\n\na\n"));
    assert_eq!(vec!["", "", "a"], parser.get_lines().unwrap());
}

#[test]
fn records_and_separators_give_back_the_input() {
    let input = "From abc\n\nFrom cde\n\nFrom xyz\n\nFrom zzt";
    for capacity in [15usize, 16, 20, 40, 8192] {
        let mut parser = Parser::with_buf_size(source(input), capacity);
        let records = parser.get_records(&Marker::mbox()).unwrap();
        let mut joined: Vec<u8> = Vec::new();
        for (i, record) in records.iter().enumerate() {
            if i > 0 {
                joined.extend_from_slice(b"\n\n");
            }
            joined.extend_from_slice(record);
        }
        assert_eq!(input.as_bytes(), &joined[..]);
    }
}

#[test]
fn short_reads_do_not_change_the_records() {
    let input = "From abc\n\nFrom cde\n\nFrom xyz\n\nFrom zzt";
    for limit in [1usize, 2, 3, 7, 100] {
        let reader = MemorySource::with_short_reads(input.as_bytes().to_vec(), limit);
        let mut parser = Parser::with_buf_size(reader, 15);
        let result = parser.get_messages().unwrap();
        assert_eq!(vec!["From abc", "From cde", "From xyz", "From zzt"], result);
    }
}

#[test]
fn marker_straddling_two_fills_is_found() {
    // The first fill of 20 bytes ends with the two line feeds of the
    // second marker; the rest of it comes with the second fill.
    let mut parser = Parser::with_buf_size(source("From a\n\nFrom bcdef\n\nFrom z"), 20);
    assert_eq!(vec!["From a", "From bcdef", "From z"], parser.get_messages().unwrap());
}

#[test]
fn one_record_per_marker_in_order() {
    let mut parser = Parser::new(source("From 1\n\nFrom 2\n\nFrom 3"));
    let records = parser.get_records(&Marker::mbox()).unwrap();
    assert_eq!(3, records.len());
    assert_eq!(b"From 1".to_vec(), records[0]);
    assert_eq!(b"From 2".to_vec(), records[1]);
    assert_eq!(b"From 3".to_vec(), records[2]);
}

#[test]
fn window_too_small_for_a_record_ends_the_scan_early() {
    // Nine bytes and no marker in them: the window is full and nothing more is read.
    let mut parser = Parser::with_buf_size(source("From abcdefgh\n\nFrom x"), 9);
    assert_eq!(vec!["From abcd"], parser.get_messages().unwrap());
}

#[test]
fn window_too_small_for_the_head_fails_the_check() {
    let mut parser = Parser::with_buf_size(source("From abc"), 4);
    assert!(matches!(parser.get_messages(), Err(ParseError::MissingFirstFrom)));
}

#[test]
fn line_that_ends_with_the_window_ends_the_scan_early() {
    // The first fill ends with the line feed; all of it is consumed, and
    // the cursors stay at the end of the window.
    let mut parser = Parser::with_buf_size(source("foo\nbar"), 4);
    assert_eq!(vec!["foo"], parser.get_lines().unwrap());
}

#[test]
fn second_scan_gives_the_last_record_again() {
    let mut parser = Parser::new(source("From abc\n\nFrom cde"));
    assert_eq!(vec!["From abc", "From cde"], parser.get_messages().unwrap());
    assert_eq!(vec!["From cde"], parser.get_messages().unwrap());
}

#[test]
fn missed_marker_gives_no_record() {
    // Three line feeds: the pass walks past the marker.
    let mut parser = Parser::new(source("From a\n\n\nFrom b"));
    assert_eq!(vec!["From a\n\n\nFrom b"], parser.get_messages().unwrap());
}

#[test]
fn text_is_decoded_with_replacement() {
    assert_eq!("From abc", make_message(b"From abc"));
    assert_eq!("a\u{fffd}b", make_message(b"a\xffb"));
    assert_eq!("", make_message(b""));
    let texts = make_messages(&vec![b"x".to_vec(), b"\xc3\xa9".to_vec(), b"\xc3".to_vec()]);
    assert_eq!(vec!["x", "\u{e9}", "\u{fffd}"], texts);
}

#[test]
fn failing_source_fails_a_scan_of_lines() {
    let mut parser = Parser::with_buf_size(FailingSource::new(ErrorKind::UnexpectedEof.into()), 16);
    let failed = parser.get_records(&Marker::line_feed());
    assert!(matches!(failed, Err(ParseError::ReadError(e)) if e.kind() == ErrorKind::UnexpectedEof));
}

#[test]
fn errors_in_words() {
    assert_eq!(
        "Expected 'From ' at beginning of input is missing",
        ParseError::MissingFirstFrom.message()
    );
    assert_eq!(
        "Reading caused io::Error",
        ParseError::ReadError(ErrorKind::Other.into()).message()
    );
}

#[test]
fn marker_of_ones_own_splits_and_asks_for_its_head() {
    // Two bytes stand between the records; the third begins each record.
    let marker = Marker::new(b"--#".to_vec(), 2).unwrap();
    let mut parser = Parser::new(source("#a--#b--#c"));
    let records = parser.get_records(&marker).unwrap();
    assert_eq!(vec![b"#a".to_vec(), b"#b".to_vec(), b"#c".to_vec()], records);
    let mut parser = Parser::new(source("a--#b"));
    assert!(matches!(parser.get_records(&marker), Err(ParseError::MissingFirstFrom)));
}

#[test]
fn missing_head_is_found_before_any_record() {
    let mut parser = Parser::new(source("X\n\nFrom a\n\nFrom b"));
    assert!(matches!(parser.get_messages(), Err(ParseError::MissingFirstFrom)));
}

#[test]
fn input_that_is_the_head_alone() {
    let mut parser = Parser::new(source("From "));
    assert_eq!(vec!["From "], parser.get_messages().unwrap());
}

#[test]
fn window_of_the_size_of_the_input() {
    let input = "From abc\n\nFrom cde";
    let mut parser = Parser::with_buf_size(source(input), input.len());
    assert_eq!(vec!["From abc", "From cde"], parser.get_messages().unwrap());
}
