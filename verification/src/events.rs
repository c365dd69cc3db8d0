//! The events of a connection: what is sent and received.
use vstd::prelude::*;
use vstd::string::*;

use crate::abnf;
use crate::abnf::{matches_run, Class};
use crate::bytes::{bytes_eq, to_vec};
use crate::headers::{Field, Headers};
use crate::util;
use crate::util::{local_error, ErrorView, ProtocolError};

verus! {

#[verifier::ext_equal]
pub struct RequestView {
    pub method: Seq<u8>,
    pub headers: Seq<Field>,
    pub target: Seq<u8>,
    pub http_version: Seq<u8>,
}

#[verifier::ext_equal]
pub struct ResponseView {
    pub headers: Seq<Field>,
    pub http_version: Seq<u8>,
    pub reason: Seq<u8>,
    pub status_code: u16,
}

#[verifier::ext_equal]
pub struct DataView {
    pub data: Seq<u8>,
    pub chunk_start: bool,
    pub chunk_end: bool,
}

#[verifier::ext_equal]
pub enum EventView {
    Request(RequestView),
    NormalResponse(ResponseView),
    InformationalResponse(ResponseView),
    Data(DataView),
    EndOfMessage(Seq<Field>),
    ConnectionClosed,
    NeedData,
    Paused,
}

/// The start of a request.
#[derive(PartialEq, Eq)]
pub struct Request {
    pub method: Vec<u8>,
    pub headers: Headers,
    pub target: Vec<u8>,
    pub http_version: Vec<u8>,
}

impl View for Request {
    type V = RequestView;

    open spec fn view(&self) -> RequestView {
        RequestView {
            method: self.method@,
            headers: self.headers@,
            target: self.target@,
            http_version: self.http_version@,
        }
    }
}

/// The number of `Host` fields.
pub open spec fn host_count(fields: Seq<Field>) -> nat
    decreases fields.len(),
{
    if fields.len() == 0 {
        0
    } else if fields.last().name == "host".spec_bytes() {
        host_count(fields.drop_last()) + 1
    } else {
        host_count(fields.drop_last())
    }
}

/// What is wrong with a request, if anything.
pub open spec fn request_error(r: RequestView) -> Option<ErrorView> {
    if r.http_version == "1.1".spec_bytes() && host_count(r.headers) == 0 {
        Some(util::local("Missing mandatory Host: header"@))
    } else if host_count(r.headers) > 1 {
        Some(util::local("Found multiple Host: headers"@))
    } else if !abnf::is_token(r.method) {
        Some(util::local("Illegal method characters"@))
    } else if !abnf::is_request_target(r.target) {
        Some(util::local("Illegal target characters"@))
    } else {
        None
    }
}

impl Request {
    /// Makes a request. One of HTTP/1.1 names its host once, others at most once.
    pub fn new(
        method: Vec<u8>,
        headers: Headers,
        target: Vec<u8>,
        http_version: Vec<u8>,
    ) -> (r: Result<Self, ProtocolError>)
        ensures
            match request_error(
                RequestView {
                    method: method@,
                    headers: headers@,
                    target: target@,
                    http_version: http_version@,
                },
            ) {
                Some(e) => r is Err && r->Err_0@ == e,
                None => r == Ok::<Request, ProtocolError>(
                    Request { method, headers, target, http_version },
                ),
            },
    {
        let items: Vec<&(Vec<u8>, Vec<u8>, Vec<u8>)> = headers.raw_items();
        let mut count: usize = 0;
        let mut i: usize = 0;
        while i < items.len()
            invariant
                i <= items@.len(),
                items@.len() == headers@.len(),
                forall|j: int|
                    0 <= j < items@.len() ==> crate::headers::field_view(*#[trigger] items@[j])
                        == headers@[j],
                count <= i,
                count == host_count(headers@.take(i as int)),
            decreases items@.len() - i,
        {
            assert(headers@.take(i + 1).drop_last() =~= headers@.take(i as int));
            if bytes_eq(items[i].1.as_slice(), "host".as_bytes()) {
                count = count + 1;
            }
            i = i + 1;
        }
        assert(headers@.take(i as int) =~= headers@);
        if bytes_eq(http_version.as_slice(), "1.1".as_bytes()) && count == 0 {
            return Err(local_error("Missing mandatory Host: header"));
        }
        if count > 1 {
            return Err(local_error("Found multiple Host: headers"));
        }
        if !matches_run(method.as_slice(), Class::Token) {
            return Err(local_error("Illegal method characters"));
        }
        if !matches_run(target.as_slice(), Class::Visible) {
            return Err(local_error("Illegal target characters"));
        }
        Ok(Request { method, headers, target, http_version })
    }
}

impl Clone for Request {
    fn clone(&self) -> (r: Self)
        ensures
            r@ == self@,
    {
        Request {
            method: to_vec(self.method.as_slice()),
            headers: self.headers.clone(),
            target: to_vec(self.target.as_slice()),
            http_version: to_vec(self.http_version.as_slice()),
        }
    }
}

impl Default for Request {
    fn default() -> (r: Self)
        ensures
            r@ == (RequestView {
                method: Seq::empty(),
                headers: Seq::empty(),
                target: Seq::empty(),
                http_version: Seq::empty(),
            }),
    {
        Request {
            method: Vec::new(),
            headers: Headers::default(),
            target: Vec::new(),
            http_version: Vec::new(),
        }
    }
}

/// The start of a response: an interim one, or the final one.
#[derive(Debug, PartialEq, Eq)]
pub struct Response {
    pub headers: Headers,
    pub http_version: Vec<u8>,
    pub reason: Vec<u8>,
    pub status_code: u16,
}

impl View for Response {
    type V = ResponseView;

    open spec fn view(&self) -> ResponseView {
        ResponseView {
            headers: self.headers@,
            http_version: self.http_version@,
            reason: self.reason@,
            status_code: self.status_code,
        }
    }
}

impl Clone for Response {
    fn clone(&self) -> (r: Self)
        ensures
            r@ == self@,
    {
        Response {
            headers: self.headers.clone(),
            http_version: to_vec(self.http_version.as_slice()),
            reason: to_vec(self.reason.as_slice()),
            status_code: self.status_code,
        }
    }
}

impl Default for Response {
    fn default() -> (r: Self)
        ensures
            r@ == (ResponseView {
                headers: Seq::empty(),
                http_version: Seq::empty(),
                reason: Seq::empty(),
                status_code: 0,
            }),
    {
        Response {
            headers: Headers::default(),
            http_version: Vec::new(),
            reason: Vec::new(),
            status_code: 0,
        }
    }
}

/// A piece of a body, and whether a chunk starts and ends with it.
#[derive(Debug, PartialEq, Eq)]
pub struct Data {
    pub data: Vec<u8>,
    pub chunk_start: bool,
    pub chunk_end: bool,
}

impl View for Data {
    type V = DataView;

    open spec fn view(&self) -> DataView {
        DataView { data: self.data@, chunk_start: self.chunk_start, chunk_end: self.chunk_end }
    }
}

impl Clone for Data {
    fn clone(&self) -> (r: Self)
        ensures
            r@ == self@,
    {
        Data {
            data: to_vec(self.data.as_slice()),
            chunk_start: self.chunk_start,
            chunk_end: self.chunk_end,
        }
    }
}

impl Default for Data {
    fn default() -> (r: Self)
        ensures
            r@ == (DataView { data: Seq::empty(), chunk_start: false, chunk_end: false }),
    {
        Data { data: Vec::new(), chunk_start: false, chunk_end: false }
    }
}

/// The end of a message, with the fields that trail it.
#[derive(Debug, PartialEq, Eq)]
pub struct EndOfMessage {
    pub headers: Headers,
}

impl View for EndOfMessage {
    type V = Seq<Field>;

    open spec fn view(&self) -> Seq<Field> {
        self.headers@
    }
}

impl Clone for EndOfMessage {
    fn clone(&self) -> (r: Self)
        ensures
            r@ == self@,
    {
        EndOfMessage { headers: self.headers.clone() }
    }
}

impl Default for EndOfMessage {
    fn default() -> (r: Self)
        ensures
            r@ == Seq::<Field>::empty(),
    {
        EndOfMessage { headers: Headers::default() }
    }
}

/// The end of what a peer sends.
#[derive(Debug, Clone, Copy, PartialEq, Eq)]
pub struct ConnectionClosed {}

impl Default for ConnectionClosed {
    fn default() -> (r: Self)
        ensures
            r == (ConnectionClosed {  }),
    {
        ConnectionClosed {  }
    }
}

/// What can be sent and received, and what a reader can say instead.
#[derive(Debug, PartialEq, Eq)]
pub enum Event {
    Request(Request),
    NormalResponse(Response),
    InformationalResponse(Response),
    Data(Data),
    EndOfMessage(EndOfMessage),
    ConnectionClosed(ConnectionClosed),
    NeedData(),
    Paused(),
}

impl View for Event {
    type V = EventView;

    open spec fn view(&self) -> EventView {
        match self {
            Event::Request(request) => EventView::Request(request@),
            Event::NormalResponse(response) => EventView::NormalResponse(response@),
            Event::InformationalResponse(response) => EventView::InformationalResponse(response@),
            Event::Data(data) => EventView::Data(data@),
            Event::EndOfMessage(end) => EventView::EndOfMessage(end@),
            Event::ConnectionClosed(_) => EventView::ConnectionClosed,
            Event::NeedData() => EventView::NeedData,
            Event::Paused() => EventView::Paused,
        }
    }
}

impl Clone for Event {
    fn clone(&self) -> (r: Self)
        ensures
            r@ == self@,
    {
        match self {
            Event::Request(request) => Event::Request(request.clone()),
            Event::NormalResponse(response) => Event::NormalResponse(response.clone()),
            Event::InformationalResponse(response) => Event::InformationalResponse(
                response.clone(),
            ),
            Event::Data(data) => Event::Data(data.clone()),
            Event::EndOfMessage(end) => Event::EndOfMessage(end.clone()),
            Event::ConnectionClosed(closed) => Event::ConnectionClosed(*closed),
            Event::NeedData() => Event::NeedData(),
            Event::Paused() => Event::Paused(),
        }
    }
}

impl From<Request> for Event {
    fn from(request: Request) -> (r: Self) {
        Event::Request(request)
    }
}

impl vstd::std_specs::convert::FromSpecImpl<Request> for Event {
    open spec fn obeys_from_spec() -> bool {
        true
    }

    open spec fn from_spec(request: Request) -> Self {
        Event::Request(request)
    }
}

impl From<Response> for Event {
    fn from(response: Response) -> (r: Self) {
        if 100 <= response.status_code && response.status_code <= 199 {
            Event::InformationalResponse(response)
        } else {
            Event::NormalResponse(response)
        }
    }
}

impl vstd::std_specs::convert::FromSpecImpl<Response> for Event {
    open spec fn obeys_from_spec() -> bool {
        true
    }

    open spec fn from_spec(response: Response) -> Self {
        if 100 <= response.status_code <= 199 {
            Event::InformationalResponse(response)
        } else {
            Event::NormalResponse(response)
        }
    }
}

impl From<Data> for Event {
    fn from(data: Data) -> (r: Self) {
        Event::Data(data)
    }
}

impl vstd::std_specs::convert::FromSpecImpl<Data> for Event {
    open spec fn obeys_from_spec() -> bool {
        true
    }

    open spec fn from_spec(data: Data) -> Self {
        Event::Data(data)
    }
}

impl From<EndOfMessage> for Event {
    fn from(end_of_message: EndOfMessage) -> (r: Self) {
        Event::EndOfMessage(end_of_message)
    }
}

impl vstd::std_specs::convert::FromSpecImpl<EndOfMessage> for Event {
    open spec fn obeys_from_spec() -> bool {
        true
    }

    open spec fn from_spec(end_of_message: EndOfMessage) -> Self {
        Event::EndOfMessage(end_of_message)
    }
}

impl From<ConnectionClosed> for Event {
    fn from(connection_closed: ConnectionClosed) -> (r: Self) {
        Event::ConnectionClosed(connection_closed)
    }
}

impl vstd::std_specs::convert::FromSpecImpl<ConnectionClosed> for Event {
    open spec fn obeys_from_spec() -> bool {
        true
    }

    open spec fn from_spec(connection_closed: ConnectionClosed) -> Self {
        Event::ConnectionClosed(connection_closed)
    }
}

} // verus!
