use mbox::buf::{move_data_to_beginning, Buf, Status};
use mbox::io::{FailingSource, MemorySource};
use std::io::ErrorKind;

fn do_fill_once(data: &'static [u8], buf_size: usize, expected: Status) {
    let mut r = MemorySource::new(data.to_vec());
    let mut buf = Buf::new(buf_size);
    assert_eq!(expected, buf.fill(&mut r).unwrap());
}

#[test]
fn test_fill() {
    // More data in than the buffer size
    do_fill_once(b"abcd", 3, Status::Success);
    // Same amount of data
    do_fill_once(b"abc", 3, Status::Success);
    // less data than buffer size
    do_fill_once(b"abc", 4, Status::Success);
}

#[test]
fn test_peek() {
    let mut r = MemorySource::new(b"abc".to_vec());
    let mut buf = Buf::new(3);
    assert_eq!(Status::Success, buf.fill(&mut r).unwrap());
    assert_eq!(b"abc", buf.peek());
    buf.consume(1);
    assert_eq!(b"bc", buf.peek());
}

#[test]
fn test_move_data_to_the_beginning_optimised() {
    let mut r = MemorySource::new(b"abcdefgh".to_vec());
    let mut buf = Buf::new(8);
    buf.fill(&mut r).unwrap();
    buf.consume(4);
    move_data_to_beginning(&mut buf);
    assert_eq!(0, buf.start());
    assert_eq!(4, buf.end());
    assert_eq!(b"efgh", buf.peek());
}

#[test]
fn test_move_data_to_the_beginning_overlapping() {
    let mut r = MemorySource::new(b"abcdefgh".to_vec());
    let mut buf = Buf::new(8);
    buf.fill(&mut r).unwrap();
    buf.consume(1);
    move_data_to_beginning(&mut buf);
    assert_eq!(0, buf.start());
    assert_eq!(7, buf.end());
    assert_eq!(b"bcdefgh", buf.peek());
}

#[test]
fn test_fill_twice() {
    let mut r = MemorySource::new(b"abcdefgh".to_vec());
    let mut buf = Buf::new(6);
    buf.fill(&mut r).unwrap();
    buf.consume(4);
    buf.fill(&mut r).unwrap();
    assert_eq!(0, buf.start());
    assert_eq!(4, buf.end());
    assert_eq!(b"efgh", buf.peek());
}

#[test]
fn new_window_is_empty() {
    let buf = Buf::new(5);
    assert_eq!(0, buf.start());
    assert_eq!(0, buf.end());
    assert_eq!(0, buf.available());
    assert_eq!(b"", buf.peek());
}

#[test]
fn peek_is_repeatable() {
    let mut r = MemorySource::new(b"abc".to_vec());
    let mut buf = Buf::new(8);
    buf.fill(&mut r).unwrap();
    assert_eq!(b"abc", buf.peek());
    assert_eq!(b"abc", buf.peek());
    assert_eq!(3, buf.available());
}

#[test]
fn consume_advances_start_only() {
    let mut r = MemorySource::new(b"abcdef".to_vec());
    let mut buf = Buf::new(8);
    buf.fill(&mut r).unwrap();
    buf.consume(2);
    assert_eq!(2, buf.start());
    assert_eq!(6, buf.end());
    buf.consume(0);
    assert_eq!(2, buf.start());
    buf.consume(4);
    assert_eq!(6, buf.start());
    assert_eq!(0, buf.available());
    assert_eq!(b"", buf.peek());
}

#[test]
fn fill_on_exhausted_source_is_end_of_file() {
    let mut r = MemorySource::new(b"abc".to_vec());
    let mut buf = Buf::new(8);
    assert_eq!(Status::Success, buf.fill(&mut r).unwrap());
    assert_eq!(Status::EndOfFile, buf.fill(&mut r).unwrap());
    // Once the source is at its end it stays there, consumed or not.
    assert_eq!(Status::EndOfFile, buf.fill(&mut r).unwrap());
    buf.consume(2);
    assert_eq!(Status::EndOfFile, buf.fill(&mut r).unwrap());
    assert_eq!(b"c", buf.peek());
}

#[test]
fn fill_on_empty_source_is_end_of_file() {
    let mut r = MemorySource::new(Vec::new());
    let mut buf = Buf::new(8);
    assert_eq!(Status::EndOfFile, buf.fill(&mut r).unwrap());
    assert_eq!(b"", buf.peek());
}

#[test]
fn fill_appends_behind_what_is_there() {
    let mut r = MemorySource::with_short_reads(b"abcdefgh".to_vec(), 3);
    let mut buf = Buf::new(5);
    // Short reads are repeated until the window is full.
    assert_eq!(Status::Success, buf.fill(&mut r).unwrap());
    assert_eq!(b"abcde", buf.peek());
    buf.consume(3);
    assert_eq!(Status::Success, buf.fill(&mut r).unwrap());
    assert_eq!(0, buf.start());
    assert_eq!(b"defgh", buf.peek());
}

#[test]
fn full_window_reports_end_of_file_with_bytes_pending() {
    let mut r = MemorySource::new(b"abcd".to_vec());
    let mut buf = Buf::new(3);
    assert_eq!(Status::Success, buf.fill(&mut r).unwrap());
    assert_eq!(Status::EndOfFile, buf.fill(&mut r).unwrap());
    assert_eq!(b"abc", buf.peek());
    // Room was the reason: after a consume the source hands out the rest.
    buf.consume(1);
    assert_eq!(Status::Success, buf.fill(&mut r).unwrap());
    assert_eq!(b"bcd", buf.peek());
}

#[test]
fn emptied_window_keeps_its_cursors() {
    let mut r = MemorySource::new(b"abcd".to_vec());
    let mut buf = Buf::new(3);
    buf.fill(&mut r).unwrap();
    buf.consume(3);
    // Nothing is left to move, so nothing behind the cursors is free.
    assert_eq!(Status::EndOfFile, buf.fill(&mut r).unwrap());
    assert_eq!(3, buf.start());
    assert_eq!(3, buf.end());
}

#[test]
fn window_without_storage() {
    let mut r = MemorySource::new(b"abc".to_vec());
    let mut buf = Buf::new(0);
    assert_eq!(Status::EndOfFile, buf.fill(&mut r).unwrap());
    assert_eq!(b"", buf.peek());
}

#[test]
fn move_keeps_bytes_when_nothing_was_consumed() {
    let mut r = MemorySource::new(b"abc".to_vec());
    let mut buf = Buf::new(4);
    buf.fill(&mut r).unwrap();
    move_data_to_beginning(&mut buf);
    assert_eq!(0, buf.start());
    assert_eq!(3, buf.end());
    assert_eq!(b"abc", buf.peek());
}

#[test]
fn move_of_an_empty_view() {
    let mut r = MemorySource::new(b"abc".to_vec());
    let mut buf = Buf::new(4);
    buf.fill(&mut r).unwrap();
    buf.consume(3);
    move_data_to_beginning(&mut buf);
    assert_eq!(0, buf.start());
    assert_eq!(0, buf.end());
    assert_eq!(b"", buf.peek());
}

#[test]
fn move_at_the_boundary_between_the_two_ways() {
    // Four bytes to move from offset four: they do not overlap.
    let mut r = MemorySource::new(b"abcdefgh".to_vec());
    let mut buf = Buf::new(8);
    buf.fill(&mut r).unwrap();
    buf.consume(4);
    move_data_to_beginning(&mut buf);
    assert_eq!(b"efgh", buf.peek());
    // Five bytes to move from offset three: they overlap.
    let mut r = MemorySource::new(b"abcdefgh".to_vec());
    let mut buf = Buf::new(8);
    buf.fill(&mut r).unwrap();
    buf.consume(3);
    move_data_to_beginning(&mut buf);
    assert_eq!(0, buf.start());
    assert_eq!(5, buf.end());
    assert_eq!(b"defgh", buf.peek());
}

#[test]
fn failing_source_leaves_the_view() {
    let mut r = MemorySource::new(b"abcdef".to_vec());
    let mut buf = Buf::new(8);
    buf.fill(&mut r).unwrap();
    buf.consume(2);
    let mut broken = FailingSource::new(ErrorKind::Other.into());
    let failed = buf.fill(&mut broken);
    assert!(matches!(failed, Err(e) if e.kind() == ErrorKind::Other));
    assert_eq!(b"cdef", buf.peek());
}
