use mbox::io::MemorySource;
use mbox::mbox::{find_marker, Marker};
use mbox::Parser;

/// The records of `input` split in one piece, and what is left.
fn split_whole(input: &[u8], pattern: &[u8], separator: usize) -> (Vec<Vec<u8>>, Vec<u8>) {
    let mut records = Vec::new();
    let mut rest = input;
    while let Some(pos) = find_marker(rest, pattern) {
        records.push(rest[..pos].to_vec());
        rest = &rest[pos + separator..];
    }
    (records, rest.to_vec())
}

/// Every record fits in `capacity` together with its marker, and so does
/// what is left.
fn fits(input: &[u8], pattern: &[u8], separator: usize, capacity: usize) -> bool {
    let mut rest = input;
    while let Some(pos) = find_marker(rest, pattern) {
        if pos + pattern.len() > capacity {
            return false;
        }
        rest = &rest[pos + separator..];
    }
    rest.len() <= capacity
}

struct Numbers(u64);

impl Numbers {
    fn next(&mut self, below: usize) -> usize {
        self.0 = self.0.wrapping_mul(6364136223846793005).wrapping_add(1442695040888963407);
        ((self.0 >> 33) as usize) % below
    }
}

fn mailbox(numbers: &mut Numbers) -> Vec<u8> {
    let mut input = b"From ".to_vec();
    let pieces: [&[u8]; 6] = [b"a", b"bc", b"\n", b"\n\nFrom ", b"From", b" x"];
    for _ in 0..numbers.next(12) {
        input.extend_from_slice(pieces[numbers.next(pieces.len())]);
    }
    input
}

#[test]
fn scan_is_the_split_of_the_whole_where_every_record_fits() {
    let mut numbers = Numbers(7);
    let marker = Marker::mbox();
    let mut compared = 0;
    for _ in 0..400 {
        let input = mailbox(&mut numbers);
        let capacity = 7 + numbers.next(30);
        let limit = 1 + numbers.next(9);
        if !fits(&input, marker.bytes(), 2, capacity) {
            continue;
        }
        let reader = MemorySource::with_short_reads(input.clone(), limit);
        let mut parser = Parser::with_buf_size(reader, capacity);
        let found = parser.get_records(&marker).unwrap();
        let (mut expected, rest) = split_whole(&input, marker.bytes(), 2);
        if !rest.is_empty() {
            expected.push(rest);
        }
        assert_eq!(expected, found);
        compared += 1;
    }
    assert!(compared > 50);
}

#[test]
fn scan_gives_back_every_byte_it_read() {
    let mut numbers = Numbers(11);
    let marker = Marker::mbox();
    for _ in 0..400 {
        let input = mailbox(&mut numbers);
        let capacity = 5 + numbers.next(20);
        let reader = MemorySource::new(input.clone());
        let mut parser = Parser::with_buf_size(reader, capacity);
        let found = parser.get_records(&marker).unwrap();
        let mut joined: Vec<u8> = Vec::new();
        for (i, record) in found.iter().enumerate() {
            if i > 0 {
                joined.extend_from_slice(b"\n\n");
            }
            joined.extend_from_slice(record);
        }
        // What was emitted is the front of the input; the rest was never
        // read, because a record did not fit.
        assert!(input.starts_with(&joined));
        if fits(&input, marker.bytes(), 2, capacity) {
            assert_eq!(input, joined);
        }
    }
}

#[test]
fn lines_of_an_input_that_fits_are_its_split() {
    let mut numbers = Numbers(3);
    let marker = Marker::line_feed();
    for _ in 0..200 {
        let mut input = Vec::new();
        for _ in 0..numbers.next(20) {
            input.push(if numbers.next(4) == 0 { b'\n' } else { b'a' });
        }
        let feeds = input.iter().filter(|byte| **byte == b'\n').count();
        let reader = MemorySource::with_short_reads(input.clone(), 1 + numbers.next(5));
        let mut parser = Parser::with_buf_size(reader, 20);
        let found = parser.get_records(&marker).unwrap();
        let (mut expected, rest) = split_whole(&input, b"\n", 1);
        // One line for each line feed, and one more for what follows the last.
        assert_eq!(feeds, expected.len());
        if !rest.is_empty() {
            expected.push(rest);
        }
        assert_eq!(expected, found);
    }
}
