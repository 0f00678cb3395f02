use mbox::mbox::{find_from, find_marker, starts_with, Marker, FROM_BYTES, LINE_FEED};

#[test]
fn test_no_match() {
    assert_eq!(None, find_from(b"abc"));
    assert_eq!(None, find_from(b"\n\nFrom"));
}

#[test]
fn test_match() {
    assert_eq!(Some(1), find_from(b"X\n\nFrom "));
    assert_eq!(Some(0), find_from(b"\n\nFrom abc"))
}

#[test]
fn from_bytes_spell_the_marker() {
    assert_eq!(b"\n\nFrom ", &FROM_BYTES);
    assert_eq!(b'\n', LINE_FEED);
}

#[test]
fn first_of_two_matches_is_reported() {
    assert_eq!(Some(3), find_from(b"abc\n\nFrom x\n\nFrom y"));
    assert_eq!(Some(1), find_marker(b"a\nb\nc", b"\n"));
}

#[test]
fn single_byte_marker() {
    assert_eq!(Some(0), find_marker(b"\n", b"\n"));
    assert_eq!(Some(3), find_marker(b"foo\nbar\nbaz", b"\n"));
    assert_eq!(None, find_marker(b"foo", b"\n"));
    assert_eq!(None, find_marker(b"", b"\n"));
}

#[test]
fn match_inside_failed_partial_match_is_passed_over() {
    // The third line feed drops the counter and is not looked at again.
    assert_eq!(None, find_from(b"\n\n\nFrom "));
    assert_eq!(None, find_marker(b"aab", b"ab"));
    // A later occurrence is still found.
    assert_eq!(Some(10), find_from(b"\n\n\nFrom X.\n\nFrom "));
}

#[test]
fn starts_with_compares_the_front() {
    assert!(starts_with(b"From abc", b"From "));
    assert!(!starts_with(b"From", b"From "));
    assert!(!starts_with(b"from abc", b"From "));
    assert!(starts_with(b"abc", b""));
    assert!(starts_with(b"", b""));
}

#[test]
fn markers_of_the_two_modes() {
    let mbox = Marker::mbox();
    assert_eq!(b"\n\nFrom ", mbox.bytes());
    assert_eq!(2, mbox.separator_len());
    let line = Marker::line_feed();
    assert_eq!(b"\n", line.bytes());
    assert_eq!(1, line.separator_len());
}

#[test]
fn marker_of_ones_own() {
    let made = Marker::new(b"--\n".to_vec(), 3).unwrap();
    assert_eq!(b"--\n", made.bytes());
    assert_eq!(3, made.separator_len());
    assert!(Marker::new(b"--\n".to_vec(), 0).is_none());
    assert!(Marker::new(b"--\n".to_vec(), 4).is_none());
    assert!(Marker::new(Vec::new(), 0).is_none());
}
