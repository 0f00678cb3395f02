//! A streaming record scanner: it reads a byte source through a window of
//! fixed size and splits what it reads at a fixed marker.
//!
//! A [`Parser`] owns a source and a window. A scan fills the window, takes
//! from it every record that a marker ends, and fills it again; a marker that
//! is split between two fills is found because the window keeps every byte
//! that is not consumed. When a fill appends nothing, what the window still
//! holds is the last record.
//!
//! - [`io`] has the byte sources and the reader that repeats short reads.
//! - [`buf`] has the window.
//! - [`mbox`] has the pass that finds a marker, and the markers.
//! - [`split`] says on sequences of bytes what splitting at a marker gives.
//! - [`stream`] says what a scan through the window gives, and when that
//!   is the split of the whole stream.

use crate::buf::{Buf, Status};
use crate::io::{is_rest_of, lemma_rest_of_rest, ByteSource};
use crate::mbox::{find_marker, from_marker, starts_with, Marker, LINE_FEED};
use crate::split::{delimited, first_cut, remainder};
use crate::stream::{lemma_empty_head_never_fails, scan, Outcome};
use vstd::prelude::*;

pub mod buf;
pub mod io;
pub mod mbox;
pub mod split;
pub mod stream;

verus! {

/// Why a scan gave no records.
#[derive(Debug)]
pub enum ParseError {
    /// The input does not begin as the marker says every record begins.
    MissingFirstFrom,
    /// The byte source failed.
    ReadError(std::io::Error),
}

impl ParseError {
    /// The error in words.
    pub fn message(&self) -> (text: String)
        ensures
            text@ == (match self {
                ParseError::MissingFirstFrom => "Expected 'From ' at beginning of input is missing"@,
                ParseError::ReadError(_) => "Reading caused io::Error"@,
            }),
    {
        match self {
            ParseError::MissingFirstFrom => {
                "Expected 'From ' at beginning of input is missing".to_owned()
            },
            ParseError::ReadError(_) => "Reading caused io::Error".to_owned(),
        }
    }
}

/// The text that the lossy decoding of `bytes` as UTF-8 gives.
pub uninterp spec fn lossy_text(bytes: Seq<u8>) -> Seq<char>;

/// `String::from_utf8_lossy`, made an owned string: the text of `bytes`, with
/// the replacement character in place of whatever is not UTF-8.
#[verifier::external_body]
fn from_utf8_lossy(bytes: &[u8]) -> (text: String)
    ensures
        text@ == lossy_text(bytes@),
{
    String::from_utf8_lossy(bytes).to_string()
}

/// The text of a record.
pub fn make_message(bytes: &[u8]) -> (text: String)
    ensures
        text@ == lossy_text(bytes@),
{
    from_utf8_lossy(bytes)
}

/// The capacity of the window of a parser that was not given one.
pub const BUF_SIZE: usize = 8192;

/// The bytes of each record.
pub open spec fn bytes_of(records: Seq<Vec<u8>>) -> Seq<Seq<u8>> {
    records.map_values(|record: Vec<u8>| record@)
}

/// The characters of each text.
pub open spec fn chars_of(texts: Seq<String>) -> Seq<Seq<char>> {
    texts.map_values(|text: String| text@)
}

/// The text of each record.
pub open spec fn texts_of(records: Seq<Seq<u8>>) -> Seq<Seq<char>> {
    records.map_values(|record: Seq<u8>| lossy_text(record))
}

/// Takes from the window every record that a marker ends, in order, and
/// consumes each together with the separator behind it. What is left in the
/// window holds no full marker that the pass reports.
pub fn inner_get_message(messages: &mut Vec<Vec<u8>>, buf: &mut Buf, marker: &Marker)
    requires
        old(buf).wf(),
        marker.wf(),
    ensures
        final(buf).wf(),
        final(buf).capacity() == old(buf).capacity(),
        final(buf).spec_end() == old(buf).spec_end(),
        final(buf).spec_start() == old(buf).spec_start() + old(buf)@.len() - final(buf)@.len(),
        final(buf)@ == remainder(old(buf)@, marker.pattern(), marker.separator()),
        bytes_of(final(messages)@) == bytes_of(old(messages)@) + delimited(
            old(buf)@,
            marker.pattern(),
            marker.separator(),
        ),
{
    let separator: usize = marker.separator_len();
    loop
        invariant
            buf.wf(),
            marker.wf(),
            separator == marker.separator(),
            buf.capacity() == old(buf).capacity(),
            buf.spec_end() == old(buf).spec_end(),
            buf.spec_start() == old(buf).spec_start() + old(buf)@.len() - buf@.len(),
            remainder(buf@, marker.pattern(), marker.separator()) == remainder(
                old(buf)@,
                marker.pattern(),
                marker.separator(),
            ),
            bytes_of(messages@) + delimited(buf@, marker.pattern(), marker.separator())
                == bytes_of(old(messages)@) + delimited(
                old(buf)@,
                marker.pattern(),
                marker.separator(),
            ),
        ensures
            first_cut(buf@, marker.pattern(), marker.separator()) is None,
        decreases buf@.len(),
    {
        let slice: &[u8] = buf.peek();
        match find_marker(slice, marker.bytes()) {
            None => {
                break ;
            },
            Some(pos) => {
                assert(slice@.len() == slice.len());
                let record: Vec<u8> = vstd::slice::slice_to_vec(
                    vstd::slice::slice_subrange(slice, 0, pos),
                );
                messages.push(record);
                // Only the separator is consumed: the rest of the marker
                // begins the next record, and the pass cannot report it again
                // at the front of what is left.
                buf.consume(pos + separator);
            },
        }
    }
}

/// The text of each record, in the same order.
pub fn make_messages(records: &Vec<Vec<u8>>) -> (messages: Vec<String>)
    ensures
        chars_of(messages@) == texts_of(bytes_of(records@)),
{
    let mut messages: Vec<String> = Vec::new();
    let mut i: usize = 0;
    while i < records.len()
        invariant
            i <= records@.len(),
            chars_of(messages@) == texts_of(bytes_of(records@)).take(i as int),
        decreases records@.len() - i,
    {
        messages.push(make_message(records[i].as_slice()));
        assert(texts_of(bytes_of(records@)).take(i + 1) =~= texts_of(bytes_of(records@)).take(
            i as int,
        ).push(lossy_text(records@[i as int]@)));
        i += 1;
    }
    messages
}

/// A scanner over a byte source: it reads the source through a window of
/// fixed size and splits what it reads into records.
pub struct Parser<S: ByteSource> {
    reader: S,
    buf: Buf,
}

impl<S: ByteSource> Parser<S> {
    /// The window is well formed.
    pub closed spec fn wf(&self) -> bool {
        self.buf.wf()
    }

    /// The byte source.
    pub closed spec fn source(&self) -> S {
        self.reader
    }

    /// The window.
    pub closed spec fn window(&self) -> Buf {
        self.buf
    }

    /// What a scan from the parser's present state yields with the given
    /// marker, provided that the source does not fail.
    pub open spec fn outcome(&self, pattern: Seq<u8>, separator: nat) -> Option<Outcome> {
        scan(
            self.window().capacity(),
            self.window().spec_start() as nat,
            self.window()@,
            self.source().pending(),
            pattern,
            separator,
            true,
        )
    }

    /// A parser over `reader` with a window of `BUF_SIZE` bytes.
    pub fn new(reader: S) -> (parser: Self)
        ensures
            parser.wf(),
            parser.source() == reader,
            parser.window().capacity() == BUF_SIZE,
            parser.window().spec_start() == 0,
            parser.window()@ == Seq::<u8>::empty(),
    {
        Parser::with_buf_size(reader, BUF_SIZE)
    }

    /// A parser over `reader` with a window of `buf_size` bytes.
    pub fn with_buf_size(reader: S, buf_size: usize) -> (parser: Self)
        requires
            buf_size <= isize::MAX,
        ensures
            parser.wf(),
            parser.source() == reader,
            parser.window().capacity() == buf_size,
            parser.window().spec_start() == 0,
            parser.window()@ == Seq::<u8>::empty(),
    {
        Parser { reader, buf: Buf::new(buf_size) }
    }

    /// Scans the source to its end and returns the records that `marker`
    /// separates, as bytes.
    ///
    /// The window is filled and emptied of full records in turn until a fill
    /// appends nothing. What the window then still holds is the last record,
    /// unless it is empty. After the first fill that appends anything the
    /// window must begin with the marker's head, or the scan ends with
    /// `MissingFirstFrom`. A failure of the source ends the scan with
    /// `ReadError`, and no record is returned.
    pub fn get_records(&mut self, marker: &Marker) -> (result: Result<Vec<Vec<u8>>, ParseError>)
        requires
            old(self).wf(),
            marker.wf(),
        ensures
            final(self).wf(),
            final(self).window().capacity() == old(self).window().capacity(),
            old(self).source().reliable() ==> final(self).source().reliable(),
            old(self).source().fault() matches Some(error) ==> result == Err::<
                Vec<Vec<u8>>,
                ParseError,
            >(ParseError::ReadError(error)),
            result is Err ==> is_rest_of(
                final(self).source().pending(),
                old(self).source().pending(),
            ),
            match result {
                Ok(records) => {
                    &&& old(self).outcome(marker.pattern(), marker.separator()) matches Some(found)
                    &&& bytes_of(records@) == found.emitted()
                    &&& final(self).window()@ == found.last
                    &&& final(self).window().spec_start() == found.start
                    &&& final(self).source().pending() == found.unread
                },
                Err(ParseError::MissingFirstFrom) => old(self).outcome(
                    marker.pattern(),
                    marker.separator(),
                ) is None,
                Err(ParseError::ReadError(_)) => !old(self).source().reliable(),
            },
    {
        let mut records: Vec<Vec<u8>> = Vec::new();
        let mut first: bool = true;
        let mut at_end: bool = false;
        let ghost whole = old(self).outcome(marker.pattern(), marker.separator());
        let ghost mut begun: bool = false;
        assert(self.reader.pending() == self.reader.pending().skip(0));
        while !at_end
            invariant
                self.wf(),
                begun ==> old(self).source().fault() is None,
                !begun ==> self.source() == old(self).source() && !at_end,
                marker.wf(),
                self.window().capacity() == old(self).window().capacity(),
                whole == old(self).outcome(marker.pattern(), marker.separator()),
                old(self).source().reliable() ==> self.source().reliable(),
                is_rest_of(self.source().pending(), old(self).source().pending()),
                at_end ==> whole == Some(
                    Outcome {
                        records: bytes_of(records@),
                        last: self.window()@,
                        unread: self.source().pending(),
                        start: self.window().spec_start() as nat,
                    },
                ),
                !at_end ==> match scan(
                    self.window().capacity(),
                    self.window().spec_start() as nat,
                    self.window()@,
                    self.source().pending(),
                    marker.pattern(),
                    marker.separator(),
                    first,
                ) {
                    Some(later) => whole == Some(
                        Outcome {
                            records: bytes_of(records@) + later.records,
                            last: later.last,
                            unread: later.unread,
                            start: later.start,
                        },
                    ),
                    None => whole is None,
                },
            decreases self.source().pending().len() + (if at_end { 0nat } else { 1nat }),
        {
            proof {
                self.buf.lemma_view_len();
            }
            let ghost pending = self.reader.pending();
            match self.buf.fill(&mut self.reader) {
                Err(e) => {
                    proof {
                        lemma_rest_of_rest(
                            self.reader.pending(),
                            pending,
                            old(self).source().pending(),
                        );
                    }
                    return Err(ParseError::ReadError(e));
                },
                Ok(status) => {
                    proof {
                        lemma_rest_of_rest(
                            self.reader.pending(),
                            pending,
                            old(self).source().pending(),
                        );
                        begun = true;
                    }
                    match status {
                        Status::EndOfFile => {
                            at_end = true;
                        },
                        Status::Success => {
                            if first {
                                // The first record has no marker before it
                                // that the pass could find: its beginning
                                // is checked here.
                                let head: &[u8] = vstd::slice::slice_subrange(
                                    marker.bytes(),
                                    marker.separator_len(),
                                    marker.bytes().len(),
                                );
                                if !starts_with(self.buf.peek(), head) {
                                    return Err(ParseError::MissingFirstFrom);
                                }
                                first = false;
                            }
                            let ghost collected = bytes_of(records@);
                            let ghost filled = self.buf@;
                            inner_get_message(&mut records, &mut self.buf, marker);
                            proof {
                                let later = scan(
                                    self.window().capacity(),
                                    self.window().spec_start() as nat,
                                    self.window()@,
                                    self.source().pending(),
                                    marker.pattern(),
                                    marker.separator(),
                                    false,
                                );
                                if let Some(later) = later {
                                    assert(collected + (delimited(
                                        filled,
                                        marker.pattern(),
                                        marker.separator(),
                                    ) + later.records) =~= bytes_of(records@) + later.records);
                                }
                            }
                        },
                    }
                },
            }
        }
        let last: &[u8] = self.buf.peek();
        if last.len() > 0 {
            records.push(vstd::slice::slice_to_vec(last));
        }
        Ok(records)
    }

    /// Scans the source to its end and returns the messages of the mailbox
    /// as text. Two messages are separated by an empty line that `From `
    /// follows; the input must begin with `From `.
    pub fn get_messages(&mut self) -> (result: Result<Vec<String>, ParseError>)
        requires
            old(self).wf(),
        ensures
            final(self).wf(),
            final(self).window().capacity() == old(self).window().capacity(),
            old(self).source().reliable() ==> final(self).source().reliable(),
            old(self).source().fault() matches Some(error) ==> result == Err::<
                Vec<String>,
                ParseError,
            >(ParseError::ReadError(error)),
            result is Err ==> is_rest_of(
                final(self).source().pending(),
                old(self).source().pending(),
            ),
            match result {
                Ok(messages) => {
                    &&& old(self).outcome(from_marker(), 2) matches Some(found)
                    &&& chars_of(messages@) == texts_of(found.emitted())
                    &&& final(self).window()@ == found.last
                    &&& final(self).window().spec_start() == found.start
                    &&& final(self).source().pending() == found.unread
                },
                Err(ParseError::MissingFirstFrom) => old(self).outcome(from_marker(), 2) is None,
                Err(ParseError::ReadError(_)) => !old(self).source().reliable(),
            },
    {
        let marker: Marker = Marker::mbox();
        match self.get_records(&marker) {
            Ok(records) => Ok(make_messages(&records)),
            Err(e) => Err(e),
        }
    }

    /// Scans the source to its end and returns its lines as text, without
    /// the line feeds. What follows the last line feed is a line too, unless
    /// it is empty.
    pub fn get_lines(&mut self) -> (result: Result<Vec<String>, ParseError>)
        requires
            old(self).wf(),
        ensures
            final(self).wf(),
            final(self).window().capacity() == old(self).window().capacity(),
            old(self).source().reliable() ==> final(self).source().reliable(),
            old(self).source().fault() matches Some(error) ==> result == Err::<
                Vec<String>,
                ParseError,
            >(ParseError::ReadError(error)),
            result is Err ==> is_rest_of(
                final(self).source().pending(),
                old(self).source().pending(),
            ),
            match result {
                Ok(lines) => {
                    &&& old(self).outcome(seq![LINE_FEED], 1) matches Some(found)
                    &&& chars_of(lines@) == texts_of(found.emitted())
                    &&& final(self).window()@ == found.last
                    &&& final(self).window().spec_start() == found.start
                    &&& final(self).source().pending() == found.unread
                },
                Err(ParseError::MissingFirstFrom) => false,
                Err(ParseError::ReadError(_)) => !old(self).source().reliable(),
            },
    {
        let marker: Marker = Marker::line_feed();
        proof {
            lemma_empty_head_never_fails(
                self.window().capacity(),
                self.window().spec_start() as nat,
                self.window()@,
                self.source().pending(),
                marker.pattern(),
                marker.separator(),
            );
        }
        match self.get_records(&marker) {
            Ok(records) => Ok(make_messages(&records)),
            Err(e) => Err(e),
        }
    }
}

} // verus!
