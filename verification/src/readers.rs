//! How received bytes become events: the head of a request or a response, and the body in each
//! of the ways in which it can be framed.
use vstd::prelude::*;
use vstd::string::*;
use vstd::utf8::*;

use crate::abnf;
use crate::abnf::{
    match_chunk_header, match_header_field, match_request_line, match_status_line, Class,
    RequestLine, StatusLine,
};
use crate::bytes;
use crate::bytes::{count_ows, parse_digits, to_vec, SP};
use crate::events;
use crate::events::{
    ConnectionClosed, Data, DataView, EndOfMessage, Event, EventView, Request, RequestView,
    Response, ResponseView,
};
use crate::headers;
use crate::headers::{normalize_and_validate, Field, Headers};
use crate::receivebuffer;
use crate::receivebuffer::ReceiveBuffer;
use crate::util;
use crate::util::{
    append_decimal, local_error, local_error_about, remote_error, ErrorView, ProtocolError,
    RemoteProtocolError,
};

verus! {

/// The lines with each continuation joined to the line before it by a space. A line that
/// starts with spaces or tabs is a continuation.
pub open spec fn unfolded(lines: Seq<Seq<u8>>) -> Result<Seq<Seq<u8>>, ErrorView>
    decreases lines.len(),
{
    if lines.len() == 0 {
        Ok(Seq::empty())
    } else {
        let line = lines.last();
        match unfolded(lines.drop_last()) {
            Ok(out) => if bytes::ows_len(line) == 0 {
                Ok(out.push(line))
            } else if out.len() == 0 {
                Err(util::local("continuation line at start of headers"@))
            } else {
                Ok(
                    out.drop_last().push(
                        out.last() + seq![SP] + line.skip(bytes::ows_len(line) as int),
                    ),
                )
            },
            Err(e) => Err(e),
        }
    }
}

proof fn lemma_unfolded_prefix(lines: Seq<Seq<u8>>, n: int)
    requires
        0 <= n <= lines.len(),
        unfolded(lines.take(n)) is Err,
    ensures
        unfolded(lines) == unfolded(lines.take(n)),
    decreases lines.len() - n,
{
    if n == lines.len() {
        assert(lines.take(n) =~= lines);
    } else {
        assert(lines.take(n + 1).drop_last() =~= lines.take(n));
        lemma_unfolded_prefix(lines, n + 1);
    }
}

/// The contents of a list of slices.
pub open spec fn slices_view(s: Seq<&[u8]>) -> Seq<Seq<u8>> {
    s.map_values(|x: &[u8]| x@)
}

/// The contents of a list of byte strings, or the error.
pub open spec fn list_outcome(r: Result<Vec<Vec<u8>>, ProtocolError>) -> Result<
    Seq<Seq<u8>>,
    ErrorView,
> {
    match r {
        Ok(v) => Ok(bytes::views(v@)),
        Err(e) => Err(e@),
    }
}

/// Joins continuation lines to the lines before them.
pub fn _obsolete_line_fold(lines: Vec<&[u8]>) -> (r: Result<Vec<Vec<u8>>, ProtocolError>)
    ensures
        list_outcome(r) == unfolded(slices_view(lines@)),
{
    let ghost all = slices_view(lines@);
    let mut out: Vec<Vec<u8>> = Vec::new();
    let mut i: usize = 0;
    assert(bytes::views(out@) =~= Seq::<Seq<u8>>::empty());
    while i < lines.len()
        invariant
            i <= lines@.len(),
            all == slices_view(lines@),
            unfolded(all.take(i as int)) == Ok::<Seq<Seq<u8>>, ErrorView>(bytes::views(out@)),
        decreases lines@.len() - i,
    {
        let line: &[u8] = lines[i];
        let ghost before = bytes::views(out@);
        proof {
            assert(all.take(i + 1).drop_last() =~= all.take(i as int));
            assert(all.take(i + 1).last() == line@);
            if unfolded(all.take(i + 1)) is Err {
                lemma_unfolded_prefix(all, i + 1);
            }
        }
        let n: usize = count_ows(line);
        if n > 0 {
            if out.len() == 0 {
                return Err(local_error("continuation line at start of headers"));
            }
            match out.pop() {
                Some(last) => {
                    let mut joined: Vec<u8> = last;
                    joined.push(SP);
                    joined.extend_from_slice(&line[n..line.len()]);
                    assert(line@.subrange(n as int, line@.len() as int) =~= line@.skip(n as int));
                    assert(joined@ =~= before.last() + seq![SP] + line@.skip(n as int));
                    let ghost front = out@;
                    out.push(joined);
                    assert(bytes::views(out@) =~= before.drop_last().push(joined@));
                },
                None => {},
            }
        } else {
            let copy: Vec<u8> = to_vec(line);
            out.push(copy);
            assert(bytes::views(out@) =~= before.push(line@));
        }
        i = i + 1;
    }
    assert(all.take(i as int) =~= all);
    Ok(out)
}

/// The names and values of header lines.
pub open spec fn fields_of(lines: Seq<Seq<u8>>) -> Result<Seq<(Seq<u8>, Seq<u8>)>, ErrorView>
    decreases lines.len(),
{
    if lines.len() == 0 {
        Ok(Seq::empty())
    } else {
        match fields_of(lines.drop_last()) {
            Ok(out) => match abnf::header_field(lines.last()) {
                Some(field) => Ok(out.push(field)),
                None => Err(
                    util::local("illegal header line "@ + util::shown(lines.last())),
                ),
            },
            Err(e) => Err(e),
        }
    }
}

proof fn lemma_fields_of_prefix(lines: Seq<Seq<u8>>, n: int)
    requires
        0 <= n <= lines.len(),
        fields_of(lines.take(n)) is Err,
    ensures
        fields_of(lines) == fields_of(lines.take(n)),
    decreases lines.len() - n,
{
    if n == lines.len() {
        assert(lines.take(n) =~= lines);
    } else {
        assert(lines.take(n + 1).drop_last() =~= lines.take(n));
        lemma_fields_of_prefix(lines, n + 1);
    }
}

/// The values of header lines are header values.
pub proof fn lemma_fields_of_values(lines: Seq<Seq<u8>>)
    ensures
        fields_of(lines) matches Ok(out) ==> forall|i: int|
            0 <= i < out.len() ==> abnf::is_field_value((#[trigger] out[i]).1),
    decreases lines.len(),
{
    if lines.len() > 0 {
        lemma_fields_of_values(lines.drop_last());
    }
}

/// The names and values of header lines, some of which may be continued.
pub open spec fn decoded(lines: Seq<Seq<u8>>) -> Result<Seq<(Seq<u8>, Seq<u8>)>, ErrorView> {
    match unfolded(lines) {
        Ok(out) => fields_of(out),
        Err(e) => Err(e),
    }
}

/// Reads header lines.
fn _decode_header_lines(lines: &[Vec<u8>]) -> (r: Result<Vec<(Vec<u8>, Vec<u8>)>, ProtocolError>)
    ensures
        match decoded(bytes::views(lines@)) {
            Ok(out) => r is Ok && headers::pairs_view(r->Ok_0@) == out,
            Err(e) => r is Err && r->Err_0@ == e,
        },
{
    let mut slices: Vec<&[u8]> = Vec::new();
    let mut k: usize = 0;
    while k < lines.len()
        invariant
            k <= lines@.len(),
            slices@.len() == k,
            forall|j: int| 0 <= j < k ==> (#[trigger] slices@[j])@ == lines@[j]@,
        decreases lines@.len() - k,
    {
        slices.push(lines[k].as_slice());
        k = k + 1;
    }
    assert(slices_view(slices@) =~= bytes::views(lines@));
    let joined: Vec<Vec<u8>> = match _obsolete_line_fold(slices) {
        Ok(joined) => joined,
        Err(e) => {
            return Err(e);
        },
    };
    let ghost all = bytes::views(joined@);
    let mut out: Vec<(Vec<u8>, Vec<u8>)> = Vec::new();
    let mut i: usize = 0;
    assert(headers::pairs_view(out@) =~= Seq::<(Seq<u8>, Seq<u8>)>::empty());
    while i < joined.len()
        invariant
            i <= joined@.len(),
            all == bytes::views(joined@),
            decoded(bytes::views(lines@)) == fields_of(all),
            fields_of(all.take(i as int)) == Ok::<Seq<(Seq<u8>, Seq<u8>)>, ErrorView>(
                headers::pairs_view(out@),
            ),
        decreases joined@.len() - i,
    {
        let ghost before = headers::pairs_view(out@);
        proof {
            assert(all.take(i + 1).drop_last() =~= all.take(i as int));
            assert(all.take(i + 1).last() == joined@[i as int]@);
            if fields_of(all.take(i + 1)) is Err {
                lemma_fields_of_prefix(all, i + 1);
            }
        }
        match match_header_field(joined[i].as_slice()) {
            Some(field) => {
                out.push(field);
                assert(headers::pairs_view(out@) =~= before.push(abnf::pair_view(field)));
            },
            None => {
                return Err(local_error_about("illegal header line ", joined[i].as_slice()));
            },
        }
        i = i + 1;
    }
    assert(all.take(i as int) =~= all);
    Ok(out)
}

/// The header fields of header lines.
pub open spec fn parsed_fields(lines: Seq<Seq<u8>>) -> Result<Seq<Field>, ErrorView> {
    match decoded(lines) {
        Ok(pairs) => match headers::normalize(pairs, true) {
            Ok(n) => Ok(n.fields),
            Err(e) => Err(e),
        },
        Err(e) => Err(e),
    }
}

fn parse_fields(lines: &[Vec<u8>]) -> (r: Result<Headers, ProtocolError>)
    ensures
        match parsed_fields(bytes::views(lines@)) {
            Ok(fields) => r is Ok && r->Ok_0@ == fields,
            Err(e) => r is Err && r->Err_0@ == e,
        },
{
    let pairs: Vec<(Vec<u8>, Vec<u8>)> = match _decode_header_lines(lines) {
        Ok(pairs) => pairs,
        Err(e) => {
            return Err(e);
        },
    };
    proof {
        lemma_decoded_text(bytes::views(lines@));
    }
    normalize_and_validate(pairs, true)
}

/// The values of header lines are text.
pub proof fn lemma_decoded_text(lines: Seq<Seq<u8>>)
    ensures
        decoded(lines) matches Ok(out) ==> forall|i: int|
            0 <= i < out.len() ==> valid_utf8((#[trigger] out[i]).1),
{
    if let Ok(joined) = unfolded(lines) {
        lemma_fields_of_values(joined);
        if let Ok(out) = fields_of(joined) {
            assert forall|i: int| 0 <= i < out.len() implies valid_utf8(
                (#[trigger] out[i]).1,
            ) by {
                abnf::lemma_field_text_utf8(out[i].1);
            }
        }
    }
}

/// What a reader reads, and how far it has come.
#[verifier::ext_equal]
pub enum ReaderView {
    IdleClient,
    SendResponseServer,
    ContentLength { length: nat, remaining: nat },
    Chunked { bytes_in_chunk: nat, bytes_to_discard: nat, reading_trailer: bool },
    Http10,
    Closed,
}

/// What a call of a reader leaves: the reader, the buffer, and the event or the error.
#[verifier::ext_equal]
pub struct Reading {
    pub reader: ReaderView,
    pub buffer: Seq<u8>,
    pub result: Result<Option<EventView>, ErrorView>,
}

/// The request that a block of lines holds.
pub open spec fn parsed_request(lines: Seq<Seq<u8>>) -> Result<RequestView, ErrorView> {
    if lines.len() == 0 {
        Err(util::local("no request line received"@))
    } else {
        match abnf::request_line(lines[0]) {
            Some(line) => match parsed_fields(lines.skip(1)) {
                Ok(fields) => {
                    let request = RequestView {
                        method: line.method,
                        headers: fields,
                        target: line.target,
                        http_version: line.http_version,
                    };
                    match events::request_error(request) {
                        Some(e) => Err(e),
                        None => Ok(request),
                    }
                },
                Err(e) => Err(e),
            },
            None => Err(util::local("illegal request line "@ + util::shown(lines[0]))),
        }
    }
}

/// The response that a block of lines holds.
pub open spec fn parsed_response(lines: Seq<Seq<u8>>) -> Result<ResponseView, ErrorView> {
    if lines.len() == 0 {
        Err(util::local("no response line received"@))
    } else {
        match abnf::status_line(lines[0]) {
            Some(line) => match parsed_fields(lines.skip(1)) {
                Ok(fields) => Ok(
                    ResponseView {
                        headers: fields,
                        http_version: line.http_version,
                        reason: line.reason->0,
                        status_code: bytes::digits_value(line.status_code, 10) as u16,
                    },
                ),
                Err(e) => Err(e),
            },
            None => Err(util::local("illegal response line "@ + util::shown(lines[0]))),
        }
    }
}

/// Whether the status line of a block, if it has one, has room for a reason: a space after the
/// code.
pub open spec fn has_reason(lines: Seq<Seq<u8>>) -> bool {
    lines.len() > 0 ==> (abnf::status_line(lines[0]) matches Some(line) ==> line.reason is Some)
}

/// The event of a response: interim ones have a code from 100 to 199.
pub open spec fn response_event(response: ResponseView) -> EventView {
    if 100 <= response.status_code <= 199 {
        EventView::InformationalResponse(response)
    } else {
        EventView::NormalResponse(response)
    }
}

/// What comes of a buffer without a whole head.
pub open spec fn no_head(buffer: Seq<u8>) -> Result<Option<EventView>, ErrorView> {
    if receivebuffer::starts_badly(buffer) {
        Err(util::local("illegal request line"@))
    } else {
        Ok(None)
    }
}

pub open spec fn read_request(buffer: Seq<u8>) -> Reading {
    match receivebuffer::lines_at(buffer) {
        None => Reading { reader: ReaderView::IdleClient, buffer, result: no_head(buffer) },
        Some((lines, n)) => Reading {
            reader: ReaderView::IdleClient,
            buffer: buffer.skip(n),
            result: match parsed_request(lines) {
                Ok(request) => Ok(Some(EventView::Request(request))),
                Err(e) => Err(e),
            },
        },
    }
}

pub open spec fn read_response(buffer: Seq<u8>) -> Reading {
    match receivebuffer::lines_at(buffer) {
        None => Reading { reader: ReaderView::SendResponseServer, buffer, result: no_head(buffer) },
        Some((lines, n)) => Reading {
            reader: ReaderView::SendResponseServer,
            buffer: buffer.skip(n),
            result: match parsed_response(lines) {
                Ok(response) => Ok(Some(response_event(response))),
                Err(e) => Err(e),
            },
        },
    }
}

/// A piece of a body that belongs to no chunk.
pub open spec fn plain_data(data: Seq<u8>) -> EventView {
    EventView::Data(DataView { data, chunk_start: false, chunk_end: false })
}

pub open spec fn read_content_length(length: nat, remaining: nat, buffer: Seq<u8>) -> Reading {
    if remaining == 0 {
        Reading {
            reader: ReaderView::ContentLength { length, remaining },
            buffer,
            result: Ok(Some(EventView::EndOfMessage(Seq::empty()))),
        }
    } else {
        match receivebuffer::at_most(buffer, remaining as int) {
            Some(data) => Reading {
                reader: ReaderView::ContentLength {
                    length,
                    remaining: (remaining - data.len()) as nat,
                },
                buffer: buffer.skip(data.len() as int),
                result: Ok(Some(plain_data(data))),
            },
            None => Reading {
                reader: ReaderView::ContentLength { length, remaining },
                buffer,
                result: Ok(None),
            },
        }
    }
}

/// Reads what follows the last chunk.
pub open spec fn read_trailer(
    bytes_in_chunk: nat,
    bytes_to_discard: nat,
    buffer: Seq<u8>,
) -> Reading {
    let reader = ReaderView::Chunked { bytes_in_chunk, bytes_to_discard, reading_trailer: true };
    match receivebuffer::lines_at(buffer) {
        None => Reading { reader, buffer, result: Ok(None) },
        Some((lines, n)) => Reading {
            reader,
            buffer: buffer.skip(n),
            result: match parsed_fields(lines) {
                Ok(fields) => Ok(Some(EventView::EndOfMessage(fields))),
                Err(e) => Err(e),
            },
        },
    }
}

/// Reads data of a chunk of which `bytes_in_chunk` bytes are left.
pub open spec fn read_chunk_data(
    bytes_in_chunk: nat,
    chunk_start: bool,
    buffer: Seq<u8>,
) -> Reading {
    match receivebuffer::at_most(buffer, bytes_in_chunk as int) {
        None => Reading {
            reader: ReaderView::Chunked {
                bytes_in_chunk,
                bytes_to_discard: 0,
                reading_trailer: false,
            },
            buffer,
            result: Ok(None),
        },
        Some(data) => {
            let chunk_end = data.len() == bytes_in_chunk;
            Reading {
                reader: ReaderView::Chunked {
                    bytes_in_chunk: (bytes_in_chunk - data.len()) as nat,
                    bytes_to_discard: if chunk_end {
                        2
                    } else {
                        0
                    },
                    reading_trailer: false,
                },
                buffer: buffer.skip(data.len() as int),
                result: Ok(Some(EventView::Data(DataView { data, chunk_start, chunk_end }))),
            }
        },
    }
}

/// Reads the line before a chunk, and then the chunk or the trailer.
pub open spec fn read_chunk_start(buffer: Seq<u8>) -> Reading {
    let reader = ReaderView::Chunked {
        bytes_in_chunk: 0,
        bytes_to_discard: 0,
        reading_trailer: false,
    };
    match receivebuffer::line_len(buffer) {
        None => Reading { reader, buffer, result: Ok(None) },
        Some(n) => {
            let line = buffer.take(n);
            let rest = buffer.skip(n);
            match abnf::chunk_header(line) {
                None => Reading {
                    reader,
                    buffer: rest,
                    result: Err(util::local("illegal chunk header: "@ + util::shown(line))),
                },
                Some(size) => {
                    let value = bytes::digits_value(size, 16);
                    if value > usize::MAX {
                        Reading {
                            reader,
                            buffer: rest,
                            result: Err(util::local("illegal chunk size: "@ + util::shown(size))),
                        }
                    } else if value == 0 {
                        read_trailer(0, 0, rest)
                    } else {
                        read_chunk_data(value, true, rest)
                    }
                },
            }
        },
    }
}

/// Reads on in a body of chunks: first the line end after a chunk is discarded.
pub open spec fn read_chunked(
    bytes_in_chunk: nat,
    bytes_to_discard: nat,
    reading_trailer: bool,
    buffer: Seq<u8>,
) -> Reading {
    if reading_trailer {
        read_trailer(bytes_in_chunk, bytes_to_discard, buffer)
    } else if bytes_to_discard > buffer.len() {
        Reading {
            reader: ReaderView::Chunked {
                bytes_in_chunk,
                bytes_to_discard: (bytes_to_discard - buffer.len()) as nat,
                reading_trailer,
            },
            buffer: Seq::empty(),
            result: Ok(None),
        }
    } else if bytes_in_chunk == 0 {
        read_chunk_start(buffer.skip(bytes_to_discard as int))
    } else {
        read_chunk_data(bytes_in_chunk, false, buffer.skip(bytes_to_discard as int))
    }
}

pub open spec fn read_http10(buffer: Seq<u8>) -> Reading {
    match receivebuffer::at_most(buffer, 999999999) {
        Some(data) => Reading {
            reader: ReaderView::Http10,
            buffer: buffer.skip(data.len() as int),
            result: Ok(Some(plain_data(data))),
        },
        None => Reading { reader: ReaderView::Http10, buffer, result: Ok(None) },
    }
}

pub open spec fn read_closed(buffer: Seq<u8>) -> Reading {
    Reading {
        reader: ReaderView::Closed,
        buffer,
        result: if buffer.len() > 0 {
            Err(util::local("unexpected data"@))
        } else {
            Ok(None)
        },
    }
}

/// What a reader makes of a buffer.
pub open spec fn reading(reader: ReaderView, buffer: Seq<u8>) -> Reading {
    match reader {
        ReaderView::IdleClient => read_request(buffer),
        ReaderView::SendResponseServer => read_response(buffer),
        ReaderView::ContentLength { length, remaining } => read_content_length(
            length,
            remaining,
            buffer,
        ),
        ReaderView::Chunked { bytes_in_chunk, bytes_to_discard, reading_trailer } => read_chunked(
            bytes_in_chunk,
            bytes_to_discard,
            reading_trailer,
            buffer,
        ),
        ReaderView::Http10 => read_http10(buffer),
        ReaderView::Closed => read_closed(buffer),
    }
}

/// Whether a reader can go on: a status line must have room for a reason.
pub open spec fn can_read(reader: ReaderView, buffer: Seq<u8>) -> bool {
    reader is SendResponseServer ==> (receivebuffer::lines_at(buffer) matches Some((lines, _))
        ==> has_reason(lines))
}

/// What the end of the peer's data means.
pub open spec fn at_eof(reader: ReaderView) -> Result<EventView, ErrorView> {
    match reader {
        ReaderView::ContentLength { length, remaining } => Err(
            util::remote(
                "peer closed connection without sending complete message body (received "@
                    + bytes::decimal_text((length - remaining) as nat) + " bytes, expected "@
                    + bytes::decimal_text(length) + ")"@,
            ),
        ),
        ReaderView::Chunked { .. } => Err(
            util::remote(
                "peer closed connection without sending complete message body (incomplete chunked read)"@,
            ),
        ),
        ReaderView::Http10 => Ok(EventView::EndOfMessage(Seq::empty())),
        _ => Ok(EventView::ConnectionClosed),
    }
}

/// The event of a result, or the error.
pub open spec fn input(r: Result<Option<Event>, ProtocolError>) -> Result<
    Option<EventView>,
    ErrorView,
> {
    match r {
        Ok(Some(event)) => Ok(Some(event@)),
        Ok(None) => Ok(None),
        Err(e) => Err(e@),
    }
}

/// The event of a result, or the error.
pub open spec fn event_outcome(r: Result<Event, ProtocolError>) -> Result<EventView, ErrorView> {
    match r {
        Ok(event) => Ok(event@),
        Err(e) => Err(e@),
    }
}

/// A reader of a part of a message.
pub trait Reader {
    /// What the reader is.
    spec fn reader(&self) -> ReaderView;

    /// Takes the next event from the buffer; `None` if more data has to come first.
    fn call(&mut self, buf: &mut ReceiveBuffer) -> (r: Result<Option<Event>, ProtocolError>)
        requires
            can_read(old(self).reader(), old(buf)@),
        ensures
            (Reading { reader: final(self).reader(), buffer: final(buf)@, result: input(r) })
                == reading(old(self).reader(), old(buf)@),
    ;

    /// Takes note that the peer will send nothing more.
    fn read_eof(&self) -> (r: Result<Event, ProtocolError>)
        ensures
            event_outcome(r) == at_eof(self.reader()),
    ;
}

/// Reads the head of a request.
#[derive(Clone, Copy)]
pub struct IdleClientReader {}

impl Reader for IdleClientReader {
    open spec fn reader(&self) -> ReaderView {
        ReaderView::IdleClient
    }

    fn call(&mut self, buf: &mut ReceiveBuffer) -> (r: Result<Option<Event>, ProtocolError>) {
        let lines: Vec<Vec<u8>> = match buf.maybe_extract_lines() {
            Some(lines) => lines,
            None => {
                if buf.is_next_line_obviously_invalid_request_line() {
                    return Err(local_error("illegal request line"));
                }
                return Ok(None);
            },
        };
        let ghost views = bytes::views(lines@);
        if lines.len() == 0 {
            return Err(local_error("no request line received"));
        }
        assert(views[0] == lines@[0]@);
        let line: RequestLine = match match_request_line(lines[0].as_slice()) {
            Some(line) => line,
            None => {
                return Err(local_error_about("illegal request line ", lines[0].as_slice()));
            },
        };
        let rest: &[Vec<u8>] = &lines.as_slice()[1..lines.len()];
        assert(bytes::views(rest@) =~= views.skip(1));
        let headers: Headers = match parse_fields(rest) {
            Ok(headers) => headers,
            Err(e) => {
                return Err(e);
            },
        };
        match Request::new(line.method, headers, line.target, line.http_version) {
            Ok(request) => Ok(Some(Event::Request(request))),
            Err(e) => Err(e),
        }
    }

    fn read_eof(&self) -> (r: Result<Event, ProtocolError>) {
        Ok(Event::ConnectionClosed(ConnectionClosed {  }))
    }
}

/// Reads the head of a response.
#[derive(Clone, Copy)]
pub struct SendResponseServerReader {}

proof fn lemma_three_digits(s: Seq<u8>)
    requires
        bytes::is_digits(s),
        s.len() == 3,
    ensures
        bytes::digits_value(s, 10) <= 999,
{
    reveal_with_fuel(bytes::digits_value, 4);
    assert(bytes::is_digit(s[0]) && bytes::is_digit(s[1]) && bytes::is_digit(s[2]));
    assert(s.drop_last().last() == s[1]);
    assert(s.drop_last().drop_last().last() == s[0]);
}

impl Reader for SendResponseServerReader {
    open spec fn reader(&self) -> ReaderView {
        ReaderView::SendResponseServer
    }

    fn call(&mut self, buf: &mut ReceiveBuffer) -> (r: Result<Option<Event>, ProtocolError>) {
        let lines: Vec<Vec<u8>> = match buf.maybe_extract_lines() {
            Some(lines) => lines,
            None => {
                if buf.is_next_line_obviously_invalid_request_line() {
                    return Err(local_error("illegal request line"));
                }
                return Ok(None);
            },
        };
        let ghost views = bytes::views(lines@);
        if lines.len() == 0 {
            return Err(local_error("no response line received"));
        }
        assert(views[0] == lines@[0]@);
        let line: StatusLine = match match_status_line(lines[0].as_slice()) {
            Some(line) => line,
            None => {
                return Err(local_error_about("illegal response line ", lines[0].as_slice()));
            },
        };
        proof {
            abnf::lemma_status_code(views[0]);
            assert forall|i: int| 0 <= i < line.status_code@.len() implies bytes::is_hex_digit(
                #[trigger] line.status_code@[i],
            ) by {
                assert(bytes::is_digit(line.status_code@[i]));
            }
            lemma_three_digits(line.status_code@);
        }
        let status_code: usize = match parse_digits(line.status_code.as_slice(), 10, 999) {
            Some(status_code) => status_code,
            None => {
                return Err(local_error("illegal status code"));
            },
        };
        let reason: Vec<u8> = match line.reason {
            Some(reason) => reason,
            None => Vec::new(),
        };
        let rest: &[Vec<u8>] = &lines.as_slice()[1..lines.len()];
        assert(bytes::views(rest@) =~= views.skip(1));
        let headers: Headers = match parse_fields(rest) {
            Ok(headers) => headers,
            Err(e) => {
                return Err(e);
            },
        };
        let response = Response {
            headers,
            http_version: line.http_version,
            reason,
            status_code: status_code as u16,
        };
        if 100 <= status_code && status_code <= 199 {
            Ok(Some(Event::InformationalResponse(response)))
        } else {
            Ok(Some(Event::NormalResponse(response)))
        }
    }

    fn read_eof(&self) -> (r: Result<Event, ProtocolError>) {
        Ok(Event::ConnectionClosed(ConnectionClosed {  }))
    }
}

/// Reads a body whose length was announced.
#[derive(Clone, Copy)]
pub struct ContentLengthReader {
    length: usize,
    remaining: usize,
}

impl ContentLengthReader {
    #[verifier::type_invariant]
    spec fn fits(self) -> bool {
        self.remaining <= self.length
    }

    pub fn new(length: usize) -> (r: Self)
        ensures
            r.reader() == (ReaderView::ContentLength {
                length: length as nat,
                remaining: length as nat,
            }),
    {
        ContentLengthReader { length, remaining: length }
    }
}

impl Reader for ContentLengthReader {
    closed spec fn reader(&self) -> ReaderView {
        ReaderView::ContentLength { length: self.length as nat, remaining: self.remaining as nat }
    }

    fn call(&mut self, buf: &mut ReceiveBuffer) -> (r: Result<Option<Event>, ProtocolError>) {
        proof {
            use_type_invariant(&*self);
        }
        if self.remaining == 0 {
            return Ok(Some(Event::EndOfMessage(EndOfMessage::default())));
        }
        let ghost before = buf@;
        match buf.maybe_extract_at_most(self.remaining) {
            Some(data) => {
                self.remaining = self.remaining - data.len();
                Ok(Some(Event::Data(Data { data, chunk_start: false, chunk_end: false })))
            },
            None => {
                assert(before.skip(0) =~= before);
                Ok(None)
            },
        }
    }

    fn read_eof(&self) -> (r: Result<Event, ProtocolError>) {
        proof {
            use_type_invariant(self);
        }
        let mut text: String =
            "peer closed connection without sending complete message body (received ".to_owned();
        append_decimal(&mut text, self.length - self.remaining);
        text.append(" bytes, expected ");
        append_decimal(&mut text, self.length);
        text.append(")");
        Err(ProtocolError::RemoteProtocolError(RemoteProtocolError { message: text, code: 400 }))
    }
}

/// Reads a body in chunks.
#[derive(Clone, Copy)]
pub struct ChunkedReader {
    bytes_in_chunk: usize,
    bytes_to_discard: usize,
    reading_trailer: bool,
}

impl ChunkedReader {
    pub fn new() -> (r: Self)
        ensures
            r.reader() == (ReaderView::Chunked {
                bytes_in_chunk: 0,
                bytes_to_discard: 0,
                reading_trailer: false,
            }),
    {
        ChunkedReader { bytes_in_chunk: 0, bytes_to_discard: 0, reading_trailer: false }
    }

    fn call_trailer(&mut self, buf: &mut ReceiveBuffer) -> (r: Result<
        Option<Event>,
        ProtocolError,
    >)
        requires
            old(self).reading_trailer,
        ensures
            (Reading { reader: final(self).reader(), buffer: final(buf)@, result: input(r) })
                == read_trailer(
                old(self).bytes_in_chunk as nat,
                old(self).bytes_to_discard as nat,
                old(buf)@,
            ),
    {
        match buf.maybe_extract_lines() {
            Some(lines) => match parse_fields(lines.as_slice()) {
                Ok(headers) => Ok(Some(Event::EndOfMessage(EndOfMessage { headers }))),
                Err(e) => Err(e),
            },
            None => Ok(None),
        }
    }

    fn call_data(&mut self, buf: &mut ReceiveBuffer, chunk_start: bool) -> (r: Result<
        Option<Event>,
        ProtocolError,
    >)
        requires
            old(self).bytes_in_chunk > 0,
            old(self).bytes_to_discard == 0,
            !old(self).reading_trailer,
        ensures
            (Reading { reader: final(self).reader(), buffer: final(buf)@, result: input(r) })
                == read_chunk_data(old(self).bytes_in_chunk as nat, chunk_start, old(buf)@),
    {
        let ghost before = buf@;
        match buf.maybe_extract_at_most(self.bytes_in_chunk) {
            Some(data) => {
                self.bytes_in_chunk = self.bytes_in_chunk - data.len();
                let chunk_end: bool = self.bytes_in_chunk == 0;
                if chunk_end {
                    self.bytes_to_discard = 2;
                }
                Ok(Some(Event::Data(Data { data, chunk_start, chunk_end })))
            },
            None => {
                assert(before.skip(0) =~= before);
                Ok(None)
            },
        }
    }
}

impl Reader for ChunkedReader {
    closed spec fn reader(&self) -> ReaderView {
        ReaderView::Chunked {
            bytes_in_chunk: self.bytes_in_chunk as nat,
            bytes_to_discard: self.bytes_to_discard as nat,
            reading_trailer: self.reading_trailer,
        }
    }

    fn call(&mut self, buf: &mut ReceiveBuffer) -> (r: Result<Option<Event>, ProtocolError>) {
        if self.reading_trailer {
            return self.call_trailer(buf);
        }
        let ghost start = buf@;
        assert(start.skip(0) =~= start);
        assert(start.skip(start.len() as int) =~= Seq::<u8>::empty());
        if self.bytes_to_discard > 0 {
            match buf.maybe_extract_at_most(self.bytes_to_discard) {
                Some(data) => {
                    self.bytes_to_discard = self.bytes_to_discard - data.len();
                    if self.bytes_to_discard > 0 {
                        return Ok(None);
                    }
                },
                None => {
                    return Ok(None);
                },
            }
        }
        assert(buf@ == start.skip(old(self).bytes_to_discard as int));
        if self.bytes_in_chunk > 0 {
            return self.call_data(buf, false);
        }
        let line: Vec<u8> = match buf.maybe_extract_next_line() {
            Some(line) => line,
            None => {
                return Ok(None);
            },
        };
        let size: Vec<u8> = match match_chunk_header(line.as_slice()) {
            Some(size) => size,
            None => {
                return Err(local_error_about("illegal chunk header: ", line.as_slice()));
            },
        };
        proof {
            abnf::lemma_chunk_size_digits(line@);
            assert forall|i: int| 0 <= i < size@.len() implies bytes::is_hex_digit(
                #[trigger] size@[i],
            ) by {
                assert(abnf::in_class(Class::HexDigit, size@[i]));
            }
        }
        match parse_digits(size.as_slice(), 16, usize::MAX) {
            Some(bytes_in_chunk) => {
                self.bytes_in_chunk = bytes_in_chunk;
            },
            None => {
                return Err(local_error_about("illegal chunk size: ", size.as_slice()));
            },
        }
        if self.bytes_in_chunk == 0 {
            self.reading_trailer = true;
            return self.call_trailer(buf);
        }
        self.call_data(buf, true)
    }

    fn read_eof(&self) -> (r: Result<Event, ProtocolError>) {
        Err(
            remote_error(
                "peer closed connection without sending complete message body (incomplete chunked read)",
            ),
        )
    }
}

/// Reads a body that lasts until the connection is closed.
#[derive(Clone, Copy)]
pub struct Http10Reader {}

impl Reader for Http10Reader {
    open spec fn reader(&self) -> ReaderView {
        ReaderView::Http10
    }

    fn call(&mut self, buf: &mut ReceiveBuffer) -> (r: Result<Option<Event>, ProtocolError>) {
        let ghost before = buf@;
        match buf.maybe_extract_at_most(999999999) {
            Some(data) => Ok(
                Some(Event::Data(Data { data, chunk_start: false, chunk_end: false })),
            ),
            None => {
                assert(before.skip(0) =~= before);
                Ok(None)
            },
        }
    }

    fn read_eof(&self) -> (r: Result<Event, ProtocolError>) {
        Ok(Event::EndOfMessage(EndOfMessage::default()))
    }
}

/// Reads nothing: data is an error.
#[derive(Clone, Copy)]
pub struct ClosedReader {}

impl Reader for ClosedReader {
    open spec fn reader(&self) -> ReaderView {
        ReaderView::Closed
    }

    fn call(&mut self, buf: &mut ReceiveBuffer) -> (r: Result<Option<Event>, ProtocolError>) {
        if buf.len() > 0 {
            return Err(local_error("unexpected data"));
        }
        Ok(None)
    }

    fn read_eof(&self) -> (r: Result<Event, ProtocolError>) {
        Ok(Event::ConnectionClosed(ConnectionClosed {  }))
    }
}

/// The reader that a connection uses at the moment.
#[derive(Clone, Copy)]
pub enum MessageReader {
    IdleClient(IdleClientReader),
    SendResponseServer(SendResponseServerReader),
    ContentLength(ContentLengthReader),
    Chunked(ChunkedReader),
    Http10(Http10Reader),
    Closed(ClosedReader),
}

impl MessageReader {
    /// Only one of the readers reads the heads of responses.
    pub proof fn lemma_reads_responses(&self)
        ensures
            self.reader() is SendResponseServer == self is SendResponseServer,
    {
    }
}

impl Reader for MessageReader {
    open spec fn reader(&self) -> ReaderView {
        match self {
            MessageReader::IdleClient(reader) => reader.reader(),
            MessageReader::SendResponseServer(reader) => reader.reader(),
            MessageReader::ContentLength(reader) => reader.reader(),
            MessageReader::Chunked(reader) => reader.reader(),
            MessageReader::Http10(reader) => reader.reader(),
            MessageReader::Closed(reader) => reader.reader(),
        }
    }

    fn call(&mut self, buf: &mut ReceiveBuffer) -> (r: Result<Option<Event>, ProtocolError>) {
        match self {
            MessageReader::IdleClient(reader) => reader.call(buf),
            MessageReader::SendResponseServer(reader) => reader.call(buf),
            MessageReader::ContentLength(reader) => reader.call(buf),
            MessageReader::Chunked(reader) => reader.call(buf),
            MessageReader::Http10(reader) => reader.call(buf),
            MessageReader::Closed(reader) => reader.call(buf),
        }
    }

    fn read_eof(&self) -> (r: Result<Event, ProtocolError>) {
        match self {
            MessageReader::IdleClient(reader) => reader.read_eof(),
            MessageReader::SendResponseServer(reader) => reader.read_eof(),
            MessageReader::ContentLength(reader) => reader.read_eof(),
            MessageReader::Chunked(reader) => reader.read_eof(),
            MessageReader::Http10(reader) => reader.read_eof(),
            MessageReader::Closed(reader) => reader.read_eof(),
        }
    }
}

} // verus!
