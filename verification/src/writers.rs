//! How events are written: the head of a request or a response, and the body in each of the
//! ways in which it can be framed.
use vstd::prelude::*;
use vstd::string::*;

use crate::bytes;
use crate::bytes::{bytes_eq, to_decimal, to_hexadecimal, to_vec, COLON, CR, LF, SP};
use crate::events::{Event, EventView, Request, RequestView, Response, ResponseView};
use crate::headers;
use crate::headers::{Field, Headers};
use crate::util;
use crate::util::{local_error, ErrorView, ProtocolError};

verus! {

/// The line of a header field.
pub open spec fn field_line(f: Field) -> Seq<u8> {
    f.raw_name + seq![COLON, SP] + f.value + bytes::crlf()
}

pub open spec fn is_host(f: Field) -> bool {
    f.name == "host".spec_bytes()
}

/// The lines of the fields that are hosts, or of those that are not.
pub open spec fn field_lines(fields: Seq<Field>, hosts: bool) -> Seq<u8>
    decreases fields.len(),
{
    if fields.len() == 0 {
        Seq::empty()
    } else if is_host(fields.last()) == hosts {
        field_lines(fields.drop_last(), hosts) + field_line(fields.last())
    } else {
        field_lines(fields.drop_last(), hosts)
    }
}

/// Header fields as they are written: the host comes first, and a blank line ends them.
pub open spec fn written_headers(fields: Seq<Field>) -> Seq<u8> {
    field_lines(fields, true) + field_lines(fields, false) + bytes::crlf()
}

/// The head of a request.
pub open spec fn written_request(r: RequestView) -> Result<Seq<u8>, ErrorView> {
    if r.http_version != "1.1".spec_bytes() {
        Err(util::local("I only send HTTP/1.1"@))
    } else {
        Ok(
            r.method + seq![SP] + r.target + " HTTP/1.1".spec_bytes() + bytes::crlf()
                + written_headers(r.headers),
        )
    }
}

/// The head of a response.
pub open spec fn written_response(r: ResponseView) -> Result<Seq<u8>, ErrorView> {
    if r.http_version != "1.1".spec_bytes() {
        Err(util::local("I only send HTTP/1.1"@))
    } else {
        Ok(
            "HTTP/1.1 ".spec_bytes() + bytes::decimal(r.status_code as nat) + seq![SP] + r.reason
                + bytes::crlf() + written_headers(r.headers),
        )
    }
}

/// What a writer writes: a head, or a body. `length` is what is left of a body whose length was
/// announced; it is negative once more was sent.
#[verifier::ext_equal]
pub enum WriterView {
    Request,
    Response,
    ContentLength { length: int },
    Chunked,
    Http10,
}

/// Whether a writer is there for an event.
pub open spec fn accepts(writer: WriterView, event: EventView) -> bool {
    match writer {
        WriterView::Request => event is Request,
        WriterView::Response => event is NormalResponse || event is InformationalResponse,
        _ => event is Data || event is EndOfMessage,
    }
}

/// A piece of a body, and the writer after it.
pub open spec fn written_data(writer: WriterView, data: Seq<u8>) -> (
    WriterView,
    Result<Seq<u8>, ErrorView>,
) {
    match writer {
        WriterView::ContentLength { length } => if length < data.len() {
            (
                WriterView::ContentLength { length: -1 },
                Err(util::local("Too much data for declared Content-Length"@)),
            )
        } else {
            (WriterView::ContentLength { length: length - data.len() }, Ok(data))
        },
        WriterView::Chunked => if data.len() == 0 {
            (writer, Ok(Seq::empty()))
        } else {
            (
                writer,
                Ok(bytes::hexadecimal(data.len()) + bytes::crlf() + data + bytes::crlf()),
            )
        },
        _ => (writer, Ok(data)),
    }
}

/// The end of a body.
pub open spec fn written_end(writer: WriterView, fields: Seq<Field>) -> Result<
    Seq<u8>,
    ErrorView,
> {
    match writer {
        WriterView::ContentLength { length } => if length != 0 {
            Err(util::local("Too little data for declared Content-Length"@))
        } else if fields.len() > 0 {
            Err(util::local("Content-Length and trailers don't mix"@))
        } else {
            Ok(Seq::empty())
        },
        WriterView::Chunked => Ok("0".spec_bytes() + bytes::crlf() + written_headers(fields)),
        _ => if fields.len() > 0 {
            Err(util::local("can't send trailers to HTTP/1.0 client"@))
        } else {
            Ok(Seq::empty())
        },
    }
}

/// What a writer makes of an event, and the writer after it.
pub open spec fn written(writer: WriterView, event: EventView) -> (
    WriterView,
    Result<Seq<u8>, ErrorView>,
) {
    match event {
        EventView::Request(request) => (writer, written_request(request)),
        EventView::NormalResponse(response) => (writer, written_response(response)),
        EventView::InformationalResponse(response) => (writer, written_response(response)),
        EventView::Data(data) => written_data(writer, data.data),
        EventView::EndOfMessage(fields) => (writer, written_end(writer, fields)),
        _ => (writer, Ok(Seq::empty())),
    }
}

/// The contents of what was written, or the error.
pub open spec fn output(r: Result<Vec<u8>, ProtocolError>) -> Result<Seq<u8>, ErrorView> {
    match r {
        Ok(data) => Ok(data@),
        Err(e) => Err(e@),
    }
}

fn append_crlf(data: &mut Vec<u8>)
    ensures
        final(data)@ == old(data)@ + bytes::crlf(),
{
    data.push(CR);
    data.push(LF);
    assert(data@ =~= old(data)@ + bytes::crlf());
}

fn append_field_lines(
    data: &mut Vec<u8>,
    items: &Vec<&(Vec<u8>, Vec<u8>, Vec<u8>)>,
    hosts: bool,
    fields: Ghost<Seq<Field>>,
)
    requires
        items@.len() == fields@.len(),
        forall|i: int|
            0 <= i < items@.len() ==> headers::field_view(*#[trigger] items@[i]) == fields@[i],
    ensures
        final(data)@ == old(data)@ + field_lines(fields@, hosts),
{
    let ghost all = fields@;
    let mut i: usize = 0;
    assert(data@ =~= old(data)@ + field_lines(all.take(0), hosts));
    while i < items.len()
        invariant
            i <= items@.len(),
            items@.len() == all.len(),
            forall|j: int|
                0 <= j < items@.len() ==> headers::field_view(*#[trigger] items@[j]) == all[j],
            data@ == old(data)@ + field_lines(all.take(i as int), hosts),
        decreases items@.len() - i,
    {
        assert(all.take(i + 1).drop_last() =~= all.take(i as int));
        let ghost before = data@;
        let item: &(Vec<u8>, Vec<u8>, Vec<u8>) = items[i];
        assert(headers::field_view(*item) == all[i as int]);
        if bytes_eq(item.1.as_slice(), "host".as_bytes()) == hosts {
            data.extend_from_slice(item.0.as_slice());
            data.push(COLON);
            data.push(SP);
            data.extend_from_slice(item.2.as_slice());
            append_crlf(data);
            assert(data@ =~= before + field_line(all[i as int]));
        }
        i = i + 1;
        assert(data@ =~= old(data)@ + field_lines(all.take(i as int), hosts));
    }
    assert(all.take(i as int) =~= all);
}

/// Appends header fields and the blank line that ends them.
fn _write_headers(data: &mut Vec<u8>, headers: &Headers)
    ensures
        final(data)@ == old(data)@ + written_headers(headers@),
{
    let items: Vec<&(Vec<u8>, Vec<u8>, Vec<u8>)> = headers.raw_items();
    append_field_lines(data, &items, true, Ghost(headers@));
    append_field_lines(data, &items, false, Ghost(headers@));
    append_crlf(data);
    assert(data@ =~= old(data)@ + written_headers(headers@));
}

fn _write_request(request: &Request) -> (r: Result<Vec<u8>, ProtocolError>)
    ensures
        output(r) == written_request(request@),
{
    if !bytes_eq(request.http_version.as_slice(), "1.1".as_bytes()) {
        return Err(local_error("I only send HTTP/1.1"));
    }
    let mut data: Vec<u8> = to_vec(request.method.as_slice());
    data.push(SP);
    data.extend_from_slice(request.target.as_slice());
    data.extend_from_slice(" HTTP/1.1".as_bytes());
    append_crlf(&mut data);
    _write_headers(&mut data, &request.headers);
    assert(data@ =~= written_request(request@)->Ok_0);
    Ok(data)
}

/// Writes the head of a request.
pub fn write_request(event: Event) -> (r: Result<Vec<u8>, ProtocolError>)
    requires
        accepts(WriterView::Request, event@),
    ensures
        output(r) == written(WriterView::Request, event@).1,
{
    match event {
        Event::Request(request) => _write_request(&request),
        _ => Ok(Vec::new()),
    }
}

fn _write_response(response: &Response) -> (r: Result<Vec<u8>, ProtocolError>)
    ensures
        output(r) == written_response(response@),
{
    if !bytes_eq(response.http_version.as_slice(), "1.1".as_bytes()) {
        return Err(local_error("I only send HTTP/1.1"));
    }
    let mut data: Vec<u8> = to_vec("HTTP/1.1 ".as_bytes());
    let status: Vec<u8> = to_decimal(response.status_code as usize);
    data.extend_from_slice(status.as_slice());
    data.push(SP);
    data.extend_from_slice(response.reason.as_slice());
    append_crlf(&mut data);
    _write_headers(&mut data, &response.headers);
    assert(data@ =~= written_response(response@)->Ok_0);
    Ok(data)
}

/// Writes the head of a response.
pub fn write_response(event: Event) -> (r: Result<Vec<u8>, ProtocolError>)
    requires
        accepts(WriterView::Response, event@),
    ensures
        output(r) == written(WriterView::Response, event@).1,
{
    match event {
        Event::NormalResponse(response) => _write_response(&response),
        Event::InformationalResponse(response) => _write_response(&response),
        _ => Ok(Vec::new()),
    }
}

/// A writer of bodies.
pub trait BodyWriter: Sized {
    /// What the writer is.
    spec fn writer(&self) -> WriterView;

    proof fn lemma_is_body(&self)
        ensures
            self.writer() is ContentLength || self.writer() is Chunked || self.writer() is Http10,
    ;

    /// Writes a piece of the body, or its end.
    fn call(&mut self, event: Event) -> (r: Result<Vec<u8>, ProtocolError>)
        requires
            event@ is Data || event@ is EndOfMessage,
        ensures
            (final(self).writer(), output(r)) == written(old(self).writer(), event@),
    {
        match event {
            Event::Data(data) => self.send_data(&data.data),
            Event::EndOfMessage(eom) => self.send_eom(&eom.headers),
            _ => Ok(Vec::new()),
        }
    }

    /// Writes a piece of the body.
    fn send_data(&mut self, data: &Vec<u8>) -> (r: Result<Vec<u8>, ProtocolError>)
        ensures
            (final(self).writer(), output(r)) == written_data(old(self).writer(), data@),
    ;

    /// Writes the end of the body.
    fn send_eom(&mut self, headers: &Headers) -> (r: Result<Vec<u8>, ProtocolError>)
        ensures
            final(self).writer() == old(self).writer(),
            output(r) == written_end(old(self).writer(), headers@),
    ;
}

/// Writes a body whose length was announced.
#[derive(Clone, Copy)]
pub struct ContentLengthWriter {
    length: isize,
}

impl BodyWriter for ContentLengthWriter {
    closed spec fn writer(&self) -> WriterView {
        WriterView::ContentLength { length: self.length as int }
    }

    proof fn lemma_is_body(&self) {
    }

    fn send_data(&mut self, data: &Vec<u8>) -> (r: Result<Vec<u8>, ProtocolError>) {
        if self.length < 0 || data.len() > self.length as usize {
            self.length = -1;
            Err(local_error("Too much data for declared Content-Length"))
        } else {
            self.length = self.length - data.len() as isize;
            Ok(to_vec(data.as_slice()))
        }
    }

    fn send_eom(&mut self, headers: &Headers) -> (r: Result<Vec<u8>, ProtocolError>) {
        if self.length != 0 {
            return Err(local_error("Too little data for declared Content-Length"));
        }
        if headers.len() > 0 {
            return Err(local_error("Content-Length and trailers don't mix"));
        }
        Ok(Vec::new())
    }
}

/// A writer for a body of `length` bytes.
pub fn content_length_writer(length: isize) -> (r: ContentLengthWriter)
    ensures
        r.writer() == (WriterView::ContentLength { length: length as int }),
{
    ContentLengthWriter { length }
}

/// Writes a body in chunks.
#[derive(Clone, Copy)]
pub struct ChunkedWriter {}

impl BodyWriter for ChunkedWriter {
    open spec fn writer(&self) -> WriterView {
        WriterView::Chunked
    }

    proof fn lemma_is_body(&self) {
    }

    fn send_data(&mut self, data: &Vec<u8>) -> (r: Result<Vec<u8>, ProtocolError>) {
        // A chunk without data would look like the end of the message.
        if data.len() == 0 {
            return Ok(Vec::new());
        }
        let mut out: Vec<u8> = to_hexadecimal(data.len());
        append_crlf(&mut out);
        out.extend_from_slice(data.as_slice());
        append_crlf(&mut out);
        assert(out@ =~= written_data(WriterView::Chunked, data@).1->Ok_0);
        Ok(out)
    }

    fn send_eom(&mut self, headers: &Headers) -> (r: Result<Vec<u8>, ProtocolError>) {
        let mut out: Vec<u8> = to_vec("0".as_bytes());
        append_crlf(&mut out);
        _write_headers(&mut out, headers);
        assert(out@ =~= written_end(WriterView::Chunked, headers@)->Ok_0);
        Ok(out)
    }
}

/// A writer for a body in chunks.
pub fn chunked_writer() -> (r: ChunkedWriter)
    ensures
        r.writer() == WriterView::Chunked,
{
    ChunkedWriter {  }
}

/// Writes a body that lasts until the connection is closed.
#[derive(Clone, Copy)]
pub struct Http10Writer {}

impl BodyWriter for Http10Writer {
    open spec fn writer(&self) -> WriterView {
        WriterView::Http10
    }

    proof fn lemma_is_body(&self) {
    }

    fn send_data(&mut self, data: &Vec<u8>) -> (r: Result<Vec<u8>, ProtocolError>) {
        Ok(to_vec(data.as_slice()))
    }

    fn send_eom(&mut self, headers: &Headers) -> (r: Result<Vec<u8>, ProtocolError>) {
        if headers.len() > 0 {
            Err(local_error("can't send trailers to HTTP/1.0 client"))
        } else {
            Ok(Vec::new())
        }
    }
}

/// A writer for a body that lasts until the connection is closed.
pub fn http10_writer() -> (r: Http10Writer)
    ensures
        r.writer() == WriterView::Http10,
{
    Http10Writer {  }
}

/// The writer that a connection uses at the moment.
#[derive(Clone, Copy)]
pub enum Writer {
    Request,
    Response,
    ContentLength(ContentLengthWriter),
    Chunked(ChunkedWriter),
    Http10(Http10Writer),
}

impl View for Writer {
    type V = WriterView;

    open spec fn view(&self) -> WriterView {
        match self {
            Writer::Request => WriterView::Request,
            Writer::Response => WriterView::Response,
            Writer::ContentLength(writer) => writer.writer(),
            Writer::Chunked(writer) => writer.writer(),
            Writer::Http10(writer) => writer.writer(),
        }
    }
}

impl Writer {
    /// Writes an event.
    pub fn call(&mut self, event: Event) -> (r: Result<Vec<u8>, ProtocolError>)
        requires
            accepts(old(self)@, event@),
        ensures
            (final(self)@, output(r)) == written(old(self)@, event@),
    {
        match self {
            Writer::Request => write_request(event),
            Writer::Response => write_response(event),
            Writer::ContentLength(writer) => {
                proof {
                    writer.lemma_is_body();
                }
                writer.call(event)
            },
            Writer::Chunked(writer) => writer.call(event),
            Writer::Http10(writer) => writer.call(event),
        }
    }
}

} // verus!
