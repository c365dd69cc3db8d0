//! A connection: events go out as bytes, bytes come in as events, and the state of both sides
//! decides what is allowed.
use vstd::prelude::*;
use vstd::string::*;

use crate::abnf::match_status_line;
use crate::bytes;
use crate::bytes::{bytes_before, bytes_eq, to_vec};
use crate::events::{Event, EventView, Response, ResponseView};
use crate::framing;
use crate::framing::{
    _body_framing, _keep_alive, is_framed, Framing, HeadView, RequestOrResponse,
};
use crate::headers;
use crate::headers::{
    contains_item, get_comma_header, has_expect_100_continue, is_readable, set_comma_header,
    Field, Headers,
};
use crate::laws;
use crate::readers;
use crate::readers::{
    ChunkedReader, ClosedReader, ContentLengthReader, Http10Reader, IdleClientReader,
    MessageReader, Reader, ReaderView, SendResponseServerReader,
};
use crate::receivebuffer::ReceiveBuffer;
use crate::state;
use crate::state::{ConnectionState, EventType, Proposals, Role, State, States, Switch};
use crate::util;
use crate::util::{
    local_error, remote_error, ErrorView, ProtocolError, RemoteProtocolError,
};
use crate::writers;
use crate::writers::{
    chunked_writer, content_length_writer, http10_writer, BodyWriter, Writer, WriterView,
};

verus! {

/// The size that a message head may have before it is whole.
pub const DEFAULT_MAX_INCOMPLETE_EVENT_SIZE: usize = 16384;

/// All that a connection remembers.
#[verifier::ext_equal]
pub struct ConnectionView {
    pub our_role: Role,
    pub cstate: ConnectionState,
    pub writer: Option<WriterView>,
    pub reader: Option<ReaderView>,
    pub max_incomplete_event_size: nat,
    pub buffer: Seq<u8>,
    pub closed: bool,
    pub their_http_version: Option<Seq<u8>>,
    pub request_method: Option<Seq<u8>>,
    pub waiting_for_100_continue: bool,
}

pub open spec fn other(role: Role) -> Role {
    match role {
        Role::Client => Role::Server,
        Role::Server => Role::Client,
    }
}

impl ConnectionView {
    pub open spec fn their_role(self) -> Role {
        other(self.our_role)
    }

    pub open spec fn our_state(self) -> State {
        self.cstate.states.at(self.our_role)
    }

    pub open spec fn their_state(self) -> State {
        self.cstate.states.at(self.their_role())
    }

    /// The method of the request; empty before there is one.
    pub open spec fn method(self) -> Seq<u8> {
        match self.request_method {
            Some(method) => method,
            None => Seq::empty(),
        }
    }
}

pub open spec fn fresh(our_role: Role, max_incomplete_event_size: Option<usize>) -> ConnectionView {
    ConnectionView {
        our_role,
        cstate: state::initial(),
        writer: Some(
            match our_role {
                Role::Client => WriterView::Request,
                Role::Server => WriterView::Response,
            },
        ),
        reader: Some(
            match our_role {
                Role::Client => ReaderView::SendResponseServer,
                Role::Server => ReaderView::IdleClient,
            },
        ),
        max_incomplete_event_size: match max_incomplete_event_size {
            Some(size) => size as nat,
            None => DEFAULT_MAX_INCOMPLETE_EVENT_SIZE as nat,
        },
        buffer: Seq::empty(),
        closed: false,
        their_http_version: None,
        request_method: None,
        waiting_for_100_continue: false,
    }
}

/// The writer for a side in a state; the event that led there frames a body.
pub open spec fn writer_for(role: Role, state: State, method: Seq<u8>, event: EventView) -> Option<
    WriterView,
> {
    match (role, state) {
        (_, State::SendBody) => Some(
            match framing::framing(method, framing::head_of(event)) {
                Framing::ContentLength(length) => WriterView::ContentLength {
                    length: length as int,
                },
                Framing::Chunked => WriterView::Chunked,
                Framing::Http10 => WriterView::Http10,
            },
        ),
        (Role::Client, State::Idle) => Some(WriterView::Request),
        (Role::Server, State::Idle) => Some(WriterView::Response),
        (Role::Server, State::SendResponse) => Some(WriterView::Response),
        _ => None,
    }
}

/// The reader for a side in a state; the event that led there frames a body.
pub open spec fn reader_for(role: Role, state: State, method: Seq<u8>, event: EventView) -> Option<
    ReaderView,
> {
    match (role, state) {
        (_, State::SendBody) => Some(
            match framing::framing(method, framing::head_of(event)) {
                Framing::ContentLength(length) => ReaderView::ContentLength {
                    length: length as nat,
                    remaining: length as nat,
                },
                Framing::Chunked => ReaderView::Chunked {
                    bytes_in_chunk: 0,
                    bytes_to_discard: 0,
                    reading_trailer: false,
                },
                Framing::Http10 => ReaderView::Http10,
            },
        ),
        (Role::Client, State::Idle) => Some(ReaderView::IdleClient),
        (Role::Server, State::Idle) => Some(ReaderView::SendResponseServer),
        (Role::Server, State::SendResponse) => Some(ReaderView::SendResponseServer),
        (_, State::Done) => Some(ReaderView::Closed),
        (_, State::MustClose) => Some(ReaderView::Closed),
        (_, State::Closed) => Some(ReaderView::Closed),
        _ => None,
    }
}

/// The connection with the writer and the reader that fit the states, where these have changed
/// since `before`.
pub open spec fn responded(c: ConnectionView, before: States, event: EventView) -> ConnectionView {
    ConnectionView {
        writer: if c.our_state() != before.at(c.our_role) {
            writer_for(c.our_role, c.our_state(), c.method(), event)
        } else {
            c.writer
        },
        reader: if c.their_state() != before.at(c.their_role()) {
            reader_for(c.their_role(), c.their_state(), c.method(), event)
        } else {
            c.reader
        },
        ..c
    }
}

/// The connection after an error of one side.
pub open spec fn after_error(c: ConnectionView, role: Role) -> ConnectionView {
    responded(
        ConnectionView { cstate: state::failed(c.cstate, role), ..c },
        c.cstate.states,
        EventView::NeedData,
    )
}

/// What the start of a new cycle does.
pub open spec fn next_cycle(c: ConnectionView) -> (ConnectionView, Result<(), ErrorView>) {
    let (cstate, r) = state::restarted(c.cstate);
    if r is Err {
        (c, r)
    } else {
        (
            responded(
                ConnectionView {
                    cstate,
                    request_method: None,
                    their_http_version: None,
                    waiting_for_100_continue: false,
                    ..c
                },
                c.cstate.states,
                EventView::NeedData,
            ),
            r,
        )
    }
}

/// The switches that a request proposes are noted before anything else.
pub open spec fn noted(cs: ConnectionState, role: Role, event: EventView) -> ConnectionState {
    match event {
        EventView::Request(request) if role == Role::Client => {
            let connect = if request.method == "CONNECT".spec_bytes() {
                state::with_proposal(cs, Switch::SwitchConnect)
            } else {
                cs
            };
            if headers::comma_values(request.headers, "upgrade".spec_bytes()).len() > 0 {
                state::with_proposal(connect, Switch::SwitchUpgrade)
            } else {
                connect
            }
        },
        _ => cs,
    }
}

/// The switch that a response of the server is.
pub open spec fn server_switch(cs: ConnectionState, role: Role, event: EventView) -> Option<
    Switch,
> {
    match event {
        EventView::InformationalResponse(response) if role == Role::Server
            && response.status_code == 101 => Some(Switch::SwitchUpgrade),
        EventView::NormalResponse(response) if role == Role::Server
            && cs.pending_switch_proposals.has(Switch::SwitchConnect) && 200 <= response.status_code
            && response.status_code < 300 => Some(Switch::SwitchConnect),
        _ => None,
    }
}

/// What an event does to the states.
pub open spec fn stepped(cs: ConnectionState, role: Role, event: EventView) -> (
    ConnectionState,
    Result<(), ErrorView>,
) {
    let before = noted(cs, role, event);
    state::processed(before, role, state::type_of(event), server_switch(before, role, event))
}

/// The method of the request that the connection works on, once an event has come.
pub open spec fn method_after(method: Option<Seq<u8>>, event: EventView) -> Option<Seq<u8>> {
    match event {
        EventView::Request(request) => Some(request.method),
        _ => method,
    }
}

/// The version of the peer, once an event of a side has come.
pub open spec fn version_after(c: ConnectionView, role: Role, event: EventView) -> Option<Seq<u8>> {
    match event {
        EventView::Request(request) if role == c.their_role() => Some(request.http_version),
        EventView::NormalResponse(response) if role == c.their_role() => Some(
            response.http_version,
        ),
        EventView::InformationalResponse(response) if role == c.their_role() => Some(
            response.http_version,
        ),
        _ => c.their_http_version,
    }
}

/// Whether the client waits for an interim response, once an event of a side has come.
pub open spec fn waiting_after(waiting: bool, role: Role, event: EventView) -> bool {
    match event {
        EventView::Request(request) => waiting || headers::expects_100_continue(
            request.http_version,
            request.headers,
        ),
        EventView::InformationalResponse(_) => false,
        EventView::NormalResponse(_) => false,
        EventView::Data(_) => waiting && role != Role::Client,
        EventView::EndOfMessage(_) => waiting && role != Role::Client,
        _ => waiting,
    }
}

/// What an event of a side does. One that is not allowed leaves the writer and the reader as
/// they are.
pub open spec fn after_event(c: ConnectionView, role: Role, event: EventView) -> (
    ConnectionView,
    Result<(), ErrorView>,
) {
    let (cstate, r) = stepped(c.cstate, role, event);
    if r is Err {
        (ConnectionView { cstate, ..c }, r)
    } else {
        (
            responded(
                ConnectionView {
                    cstate: if framing::is_head(event) && !framing::keeps_alive(
                        framing::head_of(event),
                    ) {
                        state::without_keep_alive(cstate)
                    } else {
                        cstate
                    },
                    request_method: method_after(c.request_method, event),
                    their_http_version: version_after(c, role, event),
                    waiting_for_100_continue: waiting_after(
                        c.waiting_for_100_continue,
                        role,
                        event,
                    ),
                    ..c
                },
                c.cstate.states,
                event,
            ),
            r,
        )
    }
}

/// Whether the headers that an event of a side makes the connection look at are text, and the
/// body that it announces has a framing.
pub open spec fn can_process(c: ConnectionView, role: Role, event: EventView) -> bool {
    let (cstate, r) = stepped(c.cstate, role, event);
    &&& event matches EventView::Request(request) ==> {
        &&& role == Role::Client ==> headers::readable(request.headers, "upgrade".spec_bytes())
        &&& r is Ok ==> headers::readable(request.headers, "connection".spec_bytes())
        &&& r is Ok && !bytes::precedes(request.http_version, "1.1".spec_bytes())
            ==> headers::readable(request.headers, "expect".spec_bytes())
    }
    &&& event matches EventView::NormalResponse(response) ==> (r is Ok ==> headers::readable(
        response.headers,
        "connection".spec_bytes(),
    ))
    &&& r is Ok && cstate.states.at(role) == State::SendBody && c.cstate.states.at(role)
        != State::SendBody ==> framing::has_framing(
        ConnectionView { request_method: method_after(c.request_method, event), ..c }.method(),
        framing::head_of(event),
    )
}

/// Whether the connection waits for the states to change before it reads on.
pub open spec fn is_paused(c: ConnectionView) -> bool {
    ||| c.their_state() == State::Done && c.buffer.len() > 0
    ||| c.their_state() == State::MightSwitchProtocol
    ||| c.their_state() == State::SwitchedProtocol
}

/// The connection after the reader was called.
pub open spec fn after_reading(c: ConnectionView) -> ConnectionView {
    let reading = readers::reading(c.reader->0, c.buffer);
    ConnectionView { reader: Some(reading.reader), buffer: reading.buffer, ..c }
}

/// The next event in the received data.
pub open spec fn extracted(c: ConnectionView) -> (ConnectionView, Result<EventView, ErrorView>) {
    if is_paused(c) {
        (c, Ok(EventView::Paused))
    } else {
        let after = after_reading(c);
        (
            after,
            match readers::reading(c.reader->0, c.buffer).result {
                Ok(Some(event)) => Ok(event),
                Ok(None) => if after.buffer.len() == 0 && c.closed {
                    readers::at_eof(after.reader->0)
                } else {
                    Ok(EventView::NeedData)
                },
                Err(e) => Err(e),
            },
        )
    }
}

/// Whether the data that was received can be read.
pub open spec fn can_extract(c: ConnectionView) -> bool {
    is_paused(c) || readers::can_read(c.reader->0, c.buffer)
}

/// What becomes of an event that was extracted.
pub open spec fn accepted(c: ConnectionView, event: EventView) -> (
    ConnectionView,
    Result<EventView, ErrorView>,
) {
    match event {
        EventView::Paused => (c, Ok(event)),
        EventView::NeedData => (
            c,
            if c.buffer.len() > c.max_incomplete_event_size {
                Err(ErrorView::Remote { message: "Receive buffer too long"@, code: 431 })
            } else if c.closed {
                Err(util::remote("peer unexpectedly closed connection"@))
            } else {
                Ok(event)
            },
        ),
        _ => {
            let (after, r) = after_event(c, c.their_role(), event);
            (
                after,
                match r {
                    Ok(_) => Ok(event),
                    Err(e) => Err(e),
                },
            )
        },
    }
}

/// What `next_event` does. An error of any kind is the peer's, and puts its side into the error
/// state.
pub open spec fn received(c: ConnectionView) -> (ConnectionView, Result<EventView, ErrorView>) {
    if c.their_state() == State::Error {
        (c, Err(util::remote("Can't receive data when peer state is ERROR"@)))
    } else {
        let (first, r) = extracted(c);
        let (second, r) = match r {
            Ok(event) => accepted(first, event),
            Err(e) => (first, Err(e)),
        };
        match r {
            Ok(event) => (second, Ok(event)),
            Err(e) => (after_error(second, c.their_role()), Err(util::reraised(e))),
        }
    }
}

/// Whether an event is one that the states have to hear of.
pub open spec fn is_news(event: EventView) -> bool {
    !(event is NeedData) && !(event is Paused)
}

/// Whether the received data makes sense so far that `next_event` can go on: a status line has
/// room for a reason, a final response has a final status code, and an announced length fits a
/// machine integer.
pub open spec fn can_receive(c: ConnectionView) -> bool {
    c.their_state() != State::Error ==> {
        &&& can_extract(c)
        &&& extracted(c).1 matches Ok(event) ==> (is_news(event) ==> can_process(
            extracted(c).0,
            c.their_role(),
            event,
        ))
    }
}

/// The items of a `Connection` field that stay when the connection will be closed: each once,
/// without `keep-alive`, and without `close`, which is added.
pub open spec fn closing_items(items: Seq<Seq<u8>>) -> Seq<Seq<u8>>
    decreases items.len(),
{
    if items.len() == 0 {
        Seq::empty()
    } else {
        let before = closing_items(items.drop_last());
        if items.last() == "keep-alive".spec_bytes() || items.last() == "close".spec_bytes()
            || before.contains(items.last()) {
            before
        } else {
            before.push(items.last())
        }
    }
}

/// The method by which the headers of a response are chosen: a response to `HEAD` has those of
/// one to `GET`.
pub open spec fn header_method(c: ConnectionView) -> Seq<u8> {
    if c.method() == "HEAD".spec_bytes() {
        "GET".spec_bytes()
    } else {
        c.method()
    }
}

/// Whether the peer is known to speak HTTP/1.1.
pub open spec fn peer_is_modern(c: ConnectionView) -> bool {
    c.their_http_version matches Some(version) && !bytes::precedes(version, "1.1".spec_bytes())
}

/// Whether the length of a response's body is not announced.
pub open spec fn is_open_ended(c: ConnectionView, response: ResponseView) -> bool {
    !(framing::framing(header_method(c), HeadView::Response(response)) is ContentLength)
}

/// The fields of a response with the framing that the peer understands: chunks, or, before
/// HTTP/1.1, the end of the connection.
pub open spec fn framed_fields(c: ConnectionView, response: ResponseView) -> Result<
    Seq<Field>,
    ErrorView,
> {
    if is_open_ended(c, response) {
        match headers::with_comma_values(
            response.headers,
            headers::content_length(),
            Seq::empty(),
        ) {
            Ok(fields) => headers::with_comma_values(
                fields,
                headers::transfer_encoding(),
                if peer_is_modern(c) {
                    seq!["chunked".spec_bytes()]
                } else {
                    Seq::empty()
                },
            ),
            Err(e) => Err(e),
        }
    } else {
        Ok(response.headers)
    }
}

/// Whether the response will be the last on the connection.
pub open spec fn will_close(c: ConnectionView, response: ResponseView) -> bool {
    ||| !c.cstate.keep_alive
    ||| is_open_ended(c, response) && !peer_is_modern(c) && c.method() != "HEAD".spec_bytes()
}

/// The response as it is sent.
pub open spec fn cleaned(c: ConnectionView, response: ResponseView) -> Result<
    ResponseView,
    ErrorView,
> {
    match framed_fields(c, response) {
        Ok(fields) => if will_close(c, response) {
            match headers::with_comma_values(
                fields,
                "connection".spec_bytes(),
                closing_items(
                    headers::comma_values(fields, "connection".spec_bytes()),
                ).push("close".spec_bytes()),
            ) {
                Ok(fields) => Ok(ResponseView { headers: fields, ..response }),
                Err(e) => Err(e),
            }
        } else {
            Ok(ResponseView { headers: fields, ..response })
        },
        Err(e) => Err(e),
    }
}

/// Whether a response can be made ready to be sent.
pub open spec fn can_clean(c: ConnectionView, response: ResponseView) -> bool {
    &&& framing::has_framing(header_method(c), HeadView::Response(response))
    &&& framed_fields(c, response) matches Ok(fields) ==> (will_close(c, response)
        ==> headers::readable(fields, "connection".spec_bytes()))
}

/// The event as it is sent.
pub open spec fn prepared(c: ConnectionView, event: EventView) -> Result<EventView, ErrorView> {
    match event {
        EventView::NormalResponse(response) => match cleaned(c, response) {
            Ok(response) => Ok(EventView::NormalResponse(response)),
            Err(e) => Err(e),
        },
        _ => Ok(event),
    }
}

/// What the writer makes of an event, and the connection with the writer after it.
pub open spec fn after_writing(c: ConnectionView, event: EventView) -> (
    ConnectionView,
    Result<Seq<u8>, ErrorView>,
) {
    match c.writer {
        Some(writer) => if event is ConnectionClosed {
            (c, Ok(Seq::empty()))
        } else {
            let (writer, data) = writers::written(writer, event);
            (ConnectionView { writer: Some(writer), ..c }, data)
        },
        None => (c, Err(util::local("Can't send data when our state is not SEND_BODY"@))),
    }
}

/// What it takes to send an event: it is made ready, written down, and taken into account.
pub open spec fn delivered(c: ConnectionView, event: EventView) -> (
    ConnectionView,
    Result<Option<Seq<u8>>, ErrorView>,
) {
    match prepared(c, event) {
        Err(e) => (c, Err(e)),
        Ok(event) => {
            let (first, data) = after_writing(c, event);
            let (second, r) = after_event(first, c.our_role, event);
            match r {
                Err(e) => (second, Err(e)),
                Ok(_) => if event is ConnectionClosed {
                    (second, Ok(None))
                } else {
                    match data {
                        Ok(data) => (second, Ok(Some(data))),
                        Err(e) => (second, Err(e)),
                    }
                },
            }
        },
    }
}

/// What `send` does: the bytes to send, or nothing where the connection is closed. After an
/// error of any kind our side can send no more.
pub open spec fn sent(c: ConnectionView, event: EventView) -> (
    ConnectionView,
    Result<Option<Seq<u8>>, ErrorView>,
) {
    if c.our_state() == State::Error {
        (c, Err(util::local("Can't send data when our state is ERROR"@)))
    } else {
        match delivered(c, event) {
            (after, Ok(data)) => (after, Ok(data)),
            (after, Err(e)) => (after_error(after, c.our_role), Err(e)),
        }
    }
}

/// Whether `send` can take an event: the writer is there for it, and its headers are in order.
pub open spec fn can_send_event(c: ConnectionView, event: EventView) -> bool {
    c.our_state() != State::Error ==> {
        &&& event matches EventView::NormalResponse(response) ==> can_clean(c, response)
        &&& prepared(c, event) matches Ok(event) ==> {
            &&& event is ConnectionClosed || (c.writer matches Some(writer) ==> writers::accepts(
                writer,
                event,
            ))
            &&& can_process(c, c.our_role, event)
        }
    }
}

/// What `receive_data` does.
pub open spec fn fed(c: ConnectionView, data: Seq<u8>) -> (ConnectionView, bool) {
    if data.len() == 0 {
        (ConnectionView { closed: true, ..c }, true)
    } else if c.closed {
        (c, false)
    } else {
        (ConnectionView { buffer: c.buffer + data, ..c }, true)
    }
}

/// What holds of the states of every connection.
pub open spec fn sane(cs: ConnectionState) -> bool {
    &&& state::settled(cs) == cs
    &&& cs.states.client != State::SendResponse
}

/// Whether a side can bring nothing more.
pub open spec fn is_over(state: State) -> bool {
    state == State::Error || state == State::MightSwitchProtocol || state
        == State::SwitchedProtocol
}

/// What holds of every connection: the states fit together, and there is a reader wherever the
/// peer's side can still bring something.
pub open spec fn healthy(c: ConnectionView) -> bool {
    sane(c.cstate) && (c.reader is None ==> is_over(c.their_state()))
}

pub proof fn lemma_after_error_healthy(c: ConnectionView, role: Role)
    requires
        healthy(c),
    ensures
        healthy(after_error(c, role)),
        forall|side: Role|
            state::failed(c.cstate, role).states.at(side) == State::SendBody
                ==> #[trigger] c.cstate.states.at(side) == State::SendBody,
{
}

pub proof fn lemma_next_cycle_healthy(c: ConnectionView)
    requires
        healthy(c),
    ensures
        healthy(next_cycle(c).0),
{
}

proof fn lemma_with_proposal_sane(cs: ConnectionState, switch: Switch)
    requires
        sane(cs),
    ensures
        sane(state::with_proposal(cs, switch)),
        state::with_proposal(cs, switch).states.server == cs.states.server,
        state::with_proposal(cs, switch).states.client == cs.states.client || (is_over(
            state::with_proposal(cs, switch).states.client,
        ) && cs.states.client != State::SendBody),
{
}

pub proof fn lemma_noted_sane(cs: ConnectionState, role: Role, event: EventView)
    requires
        sane(cs),
    ensures
        sane(noted(cs, role, event)),
        noted(cs, role, event).states.server == cs.states.server,
        noted(cs, role, event).states.client == cs.states.client || (is_over(
            noted(cs, role, event).states.client,
        ) && cs.states.client != State::SendBody),
{
    if let EventView::Request(request) = event {
        lemma_with_proposal_sane(cs, Switch::SwitchConnect);
        lemma_with_proposal_sane(cs, Switch::SwitchUpgrade);
        lemma_with_proposal_sane(
            state::with_proposal(cs, Switch::SwitchConnect),
            Switch::SwitchUpgrade,
        );
    }
}

proof fn lemma_moved_sane(cs: ConnectionState, role: Role, event_type: EventType)
    requires
        cs.states.client != State::SendResponse,
    ensures
        state::moved(cs, role, event_type) matches Ok(after) ==> {
            &&& sane(after)
            &&& after.states.client == State::SendBody ==> cs.states.client == State::SendBody || (
            role == Role::Client && event_type == EventType::Request)
            &&& after.states.server == State::SendBody ==> cs.states.server == State::SendBody || (
            role == Role::Server && event_type == EventType::NormalResponse)
        },
{
}

proof fn lemma_stepped_sane(cs: ConnectionState, role: Role, event: EventView)
    requires
        sane(cs),
    ensures
        sane(stepped(cs, role, event).0),
        stepped(cs, role, event).1 is Err ==> {
            let after = stepped(cs, role, event).0;
            &&& after.states.server == cs.states.server
            &&& after.states.client == cs.states.client || is_over(after.states.client)
        },
        stepped(cs, role, event).1 is Ok ==> {
            let after = stepped(cs, role, event).0;
            &&& after.states.client == State::SendBody ==> cs.states.client == State::SendBody || (
            role == Role::Client && event is Request)
            &&& after.states.server == State::SendBody ==> cs.states.server == State::SendBody || (
            role == Role::Server && event is NormalResponse)
        },
{
    lemma_noted_sane(cs, role, event);
    let before = noted(cs, role, event);
    let event_type = state::type_of(event);
    match server_switch(before, role, event) {
        Some(switch) => {
            lemma_moved_sane(before, role, state::switched_type(event_type, switch)->0);
        },
        None => {
            lemma_moved_sane(before, role, event_type);
            lemma_moved_sane(
                ConnectionState { pending_switch_proposals: Proposals::nothing(), ..before },
                role,
                event_type,
            );
        },
    }
}

proof fn lemma_without_keep_alive_sane(cs: ConnectionState)
    requires
        sane(cs),
    ensures
        sane(state::without_keep_alive(cs)),
        forall|side: Role|
            (state::without_keep_alive(cs).states.at(side) == State::SendBody) == (
            #[trigger] cs.states.at(side) == State::SendBody),
{
}

/// Every event leaves a healthy connection. A side starts to send a body with the head that is
/// its own event.
pub proof fn lemma_after_event_healthy(c: ConnectionView, role: Role, event: EventView)
    requires
        healthy(c),
    ensures
        healthy(after_event(c, role, event).0),
        forall|side: Role|
            after_event(c, role, event).1 is Ok && after_event(c, role, event).0.cstate.states.at(
                side,
            ) == State::SendBody && #[trigger] c.cstate.states.at(side) != State::SendBody
                ==> side == role && framing::is_head(event) && stepped(
                c.cstate,
                role,
                event,
            ).0.states.at(side) == State::SendBody,
{
    lemma_stepped_sane(c.cstate, role, event);
    let (cstate, r) = stepped(c.cstate, role, event);
    lemma_without_keep_alive_sane(cstate);
    assert(cstate.states.at(Role::Client) == cstate.states.client);
    assert(cstate.states.at(Role::Server) == cstate.states.server);
}

/// Takes note of the switches that a request proposes.
fn note_proposals(cstate: &mut ConnectionState, role: Role, event: &Event)
    requires
        event@ matches EventView::Request(request) ==> (role == Role::Client
            ==> headers::readable(request.headers, "upgrade".spec_bytes())),
    ensures
        *final(cstate) == noted(*old(cstate), role, event@),
{
    if role == Role::Client {
        if let Event::Request(request) = event {
            if bytes_eq(request.method.as_slice(), "CONNECT".as_bytes()) {
                cstate.process_client_switch_proposal(Switch::SwitchConnect);
            }
            proof {
                headers::lemma_lower_literals();
            }
            let upgrades: Vec<Vec<u8>> = get_comma_header(&request.headers, "upgrade".as_bytes());
            assert(upgrades@.len() == bytes::views(upgrades@).len());
            if upgrades.len() > 0 {
                cstate.process_client_switch_proposal(Switch::SwitchUpgrade);
            }
        }
    }
}

/// Finds the switch that a response of the server is.
fn _server_switch_event(cstate: &ConnectionState, role: Role, event: &Event) -> (r: Option<Switch>)
    ensures
        r == server_switch(*cstate, role, event@),
{
    if role == Role::Server {
        if let Event::InformationalResponse(response) = event {
            if response.status_code == 101 {
                return Some(Switch::SwitchUpgrade);
            }
        }
        if let Event::NormalResponse(response) = event {
            if cstate.pending_switch_proposals.contains(&Switch::SwitchConnect) && 200
                <= response.status_code && response.status_code < 300 {
                return Some(Switch::SwitchConnect);
            }
        }
    }
    None
}

/// Moves the states as an event demands.
fn step(cstate: &mut ConnectionState, role: Role, event: &Event) -> (r: Result<(), ProtocolError>)
    requires
        event@ matches EventView::Request(request) ==> (role == Role::Client
            ==> headers::readable(request.headers, "upgrade".spec_bytes())),
    ensures
        (*final(cstate), state::outcome(r)) == stepped(*old(cstate), role, event@),
{
    note_proposals(cstate, role, event);
    let switch: Option<Switch> = _server_switch_event(cstate, role, event);
    cstate.process_event(role, EventType::from(event), switch)
}

/// Tells whether the connection can be used again, as far as an event says.
fn stays_alive(event: &Event) -> (r: bool)
    requires
        framing::is_head(event@) ==> headers::readable(
            framing::head_of(event@).headers(),
            "connection".spec_bytes(),
        ),
    ensures
        r == !(framing::is_head(event@) && !framing::keeps_alive(framing::head_of(event@))),
{
    match event {
        Event::Request(request) => _keep_alive(RequestOrResponse::from(request.clone())),
        Event::NormalResponse(response) => _keep_alive(RequestOrResponse::from(response.clone())),
        _ => true,
    }
}

/// One end of a connection. It does no I/O: `send` gives the bytes to send, `receive_data` takes
/// the bytes that came, and `next_event` tells what they mean.
pub struct Connection {
    pub our_role: Role,
    pub their_role: Role,
    _cstate: ConnectionState,
    _writer: Option<Writer>,
    _reader: Option<MessageReader>,
    _max_incomplete_event_size: usize,
    _receive_buffer: ReceiveBuffer,
    _receive_buffer_closed: bool,
    pub their_http_version: Option<Vec<u8>>,
    _request_method: Option<Vec<u8>>,
    client_is_waiting_for_100_continue: bool,
}

impl View for Connection {
    type V = ConnectionView;

    closed spec fn view(&self) -> ConnectionView {
        ConnectionView {
            our_role: self.our_role,
            cstate: self._cstate,
            writer: match self._writer {
                Some(writer) => Some(writer@),
                None => None,
            },
            reader: match self._reader {
                Some(reader) => Some(reader.reader()),
                None => None,
            },
            max_incomplete_event_size: self._max_incomplete_event_size as nat,
            buffer: self._receive_buffer@,
            closed: self._receive_buffer_closed,
            their_http_version: bytes::opt_view(self.their_http_version),
            request_method: bytes::opt_view(self._request_method),
            waiting_for_100_continue: self.client_is_waiting_for_100_continue,
        }
    }
}

fn copied(v: &Option<Vec<u8>>) -> (r: Option<Vec<u8>>)
    ensures
        bytes::opt_view(r) == bytes::opt_view(*v),
{
    match v {
        Some(x) => Some(to_vec(x.as_slice())),
        None => None,
    }
}

impl Connection {
    /// The peer's role is the other one.
    pub closed spec fn has_two_sides(self) -> bool {
        self.their_role == other(self.our_role)
    }

    pub open spec fn wf(self) -> bool {
        self.has_two_sides() && healthy(self@)
    }

    /// Makes a connection for one of the sides.
    pub fn new(our_role: Role, max_incomplete_event_size: Option<usize>) -> (r: Self)
        ensures
            r@ == fresh(our_role, max_incomplete_event_size),
            r.wf(),
    {
        Connection {
            our_role,
            their_role: match our_role {
                Role::Client => Role::Server,
                Role::Server => Role::Client,
            },
            _cstate: ConnectionState::new(),
            _writer: match our_role {
                Role::Client => Some(Writer::Request),
                Role::Server => Some(Writer::Response),
            },
            _reader: match our_role {
                Role::Server => Some(MessageReader::IdleClient(IdleClientReader {  })),
                Role::Client => Some(
                    MessageReader::SendResponseServer(SendResponseServerReader {  }),
                ),
            },
            _max_incomplete_event_size: match max_incomplete_event_size {
                Some(size) => size,
                None => DEFAULT_MAX_INCOMPLETE_EVENT_SIZE,
            },
            _receive_buffer: ReceiveBuffer::new(),
            _receive_buffer_closed: false,
            their_http_version: None,
            _request_method: None,
            client_is_waiting_for_100_continue: false,
        }
    }

    /// The states of both sides.
    pub fn get_states(&self) -> (r: States)
        ensures
            r == self@.cstate.states,
    {
        self._cstate.states
    }

    /// The side that this end is.
    pub fn get_our_role(&self) -> (r: Role)
        ensures
            r == self@.our_role,
    {
        self.our_role
    }

    /// The side that the peer is.
    pub fn get_their_role(&self) -> (r: Role)
        requires
            self.wf(),
        ensures
            r == self@.their_role(),
    {
        self.their_role
    }

    /// The version that the peer speaks, once it is known.
    pub fn get_their_http_version(&self) -> (r: Option<Vec<u8>>)
        ensures
            bytes::opt_view(r) == self@.their_http_version,
    {
        copied(&self.their_http_version)
    }

    pub fn get_our_state(&self) -> (r: State)
        ensures
            r == self@.our_state(),
    {
        self._cstate.states.get(self.our_role)
    }

    pub fn get_their_state(&self) -> (r: State)
        requires
            self.wf(),
        ensures
            r == self@.their_state(),
    {
        self._cstate.states.get(self.their_role)
    }

    pub fn get_client_is_waiting_for_100_continue(&self) -> (r: bool)
        ensures
            r == self@.waiting_for_100_continue,
    {
        self.client_is_waiting_for_100_continue
    }

    pub fn get_they_are_waiting_for_100_continue(&self) -> (r: bool)
        requires
            self.wf(),
        ensures
            r == (self@.their_role() == Role::Client && self@.waiting_for_100_continue),
    {
        self.their_role == Role::Client && self.client_is_waiting_for_100_continue
    }

    /// Starts a new cycle of a request and a response.
    pub fn start_next_cycle(&mut self) -> (r: Result<(), ProtocolError>)
        requires
            old(self).wf(),
        ensures
            (final(self)@, state::outcome(r)) == next_cycle(old(self)@),
            final(self).wf(),
    {
        let old_states: States = self._cstate.states;
        proof {
            lemma_next_cycle_healthy(self@);
        }
        match self._cstate.start_next_cycle() {
            Ok(_) => {},
            Err(e) => {
                return Err(e);
            },
        }
        self._request_method = None;
        self.their_http_version = None;
        self.client_is_waiting_for_100_continue = false;
        self._respond_to_state_changes(old_states, None);
        Ok(())
    }

    fn _process_error(&mut self, role: Role)
        requires
            old(self).wf(),
        ensures
            final(self)@ == after_error(old(self)@, role),
            final(self).wf(),
    {
        let old_states: States = self._cstate.states;
        proof {
            lemma_after_error_healthy(self@, role);
        }
        self._cstate.process_error(role);
        self._respond_to_state_changes(old_states, None);
    }

    /// Keeps what an event of a side says of the messages to come.
    fn _remember(&mut self, role: Role, event: &Event)
        requires
            old(self).has_two_sides(),
            event@ matches EventView::Request(request) ==> (!bytes::precedes(
                request.http_version,
                "1.1".spec_bytes(),
            ) ==> headers::readable(request.headers, "expect".spec_bytes())),
        ensures
            final(self)@ == (ConnectionView {
                request_method: method_after(old(self)@.request_method, event@),
                their_http_version: version_after(old(self)@, role, event@),
                waiting_for_100_continue: waiting_after(
                    old(self)@.waiting_for_100_continue,
                    role,
                    event@,
                ),
                ..old(self)@
            }),
            final(self).has_two_sides(),
    {
        let is_theirs: bool = role == self.their_role;
        match event {
            Event::Request(request) => {
                self._request_method = Some(to_vec(request.method.as_slice()));
                if is_theirs {
                    self.their_http_version = Some(to_vec(request.http_version.as_slice()));
                }
                if has_expect_100_continue(request) {
                    self.client_is_waiting_for_100_continue = true;
                }
            },
            Event::NormalResponse(response) => {
                if is_theirs {
                    self.their_http_version = Some(to_vec(response.http_version.as_slice()));
                }
                self.client_is_waiting_for_100_continue = false;
            },
            Event::InformationalResponse(response) => {
                if is_theirs {
                    self.their_http_version = Some(to_vec(response.http_version.as_slice()));
                }
                self.client_is_waiting_for_100_continue = false;
            },
            Event::Data(_) => {
                if role == Role::Client {
                    self.client_is_waiting_for_100_continue = false;
                }
            },
            Event::EndOfMessage(_) => {
                if role == Role::Client {
                    self.client_is_waiting_for_100_continue = false;
                }
            },
            _ => {},
        }
    }

    fn _process_event(&mut self, role: Role, event: &Event) -> (r: Result<(), ProtocolError>)
        requires
            old(self).wf(),
            can_process(old(self)@, role, event@),
        ensures
            (final(self)@, state::outcome(r)) == after_event(old(self)@, role, event@),
            final(self).wf(),
    {
        let old_states: States = self._cstate.states;
        proof {
            lemma_after_event_healthy(self@, role, event@);
        }
        match step(&mut self._cstate, role, event) {
            Ok(_) => {},
            Err(e) => {
                return Err(e);
            },
        }
        self._remember(role, event);
        if !stays_alive(event) {
            self._cstate.process_keep_alive_disabled();
        }
        self._respond_to_state_changes(old_states, Some(event));
        Ok(())
    }

    fn method_or_empty(&self) -> (r: Vec<u8>)
        ensures
            r@ == self@.method(),
    {
        match &self._request_method {
            Some(method) => to_vec(method.as_slice()),
            None => {
                let empty: Vec<u8> = Vec::new();
                assert(empty@ =~= Seq::<u8>::empty());
                empty
            },
        }
    }

    /// Chooses the writer and the reader that fit the states.
    fn _respond_to_state_changes(&mut self, old_states: States, event: Option<&Event>)
        requires
            old(self).their_role == old(self)@.their_role(),
            forall|side: Role|
                old(self)@.cstate.states.at(side) == State::SendBody && #[trigger] old_states.at(
                    side,
                ) != State::SendBody ==> event is Some && framing::is_head(event->0@)
                    && framing::has_framing(
                    old(self)@.method(),
                    framing::head_of(event->0@),
                ),
        ensures
            final(self)@ == responded(
                old(self)@,
                old_states,
                match event {
                    Some(event) => event@,
                    None => EventView::NeedData,
                },
            ),
            final(self).our_role == old(self).our_role,
            final(self).their_role == old(self).their_role,
            final(self).their_http_version == old(self).their_http_version,
    {
        let our_state: State = self._cstate.states.get(self.our_role);
        let their_state: State = self._cstate.states.get(self.their_role);
        if our_state != old_states.get(self.our_role) {
            self._writer = match (self.our_role, our_state) {
                (_, State::SendBody) => match event {
                    Some(event) => {
                        let method: Vec<u8> = self.method_or_empty();
                        Some(
                            match _body_framing(
                                method.as_slice(),
                                RequestOrResponse::from_event(event.clone()),
                            ) {
                                Framing::ContentLength(length) => Writer::ContentLength(
                                    content_length_writer(length),
                                ),
                                Framing::Chunked => Writer::Chunked(chunked_writer()),
                                Framing::Http10 => Writer::Http10(http10_writer()),
                            },
                        )
                    },
                    None => None,
                },
                (Role::Client, State::Idle) => Some(Writer::Request),
                (Role::Server, State::Idle) => Some(Writer::Response),
                (Role::Server, State::SendResponse) => Some(Writer::Response),
                _ => None,
            };
        }
        if their_state != old_states.get(self.their_role) {
            self._reader = match (self.their_role, their_state) {
                (_, State::SendBody) => match event {
                    Some(event) => {
                        let method: Vec<u8> = self.method_or_empty();
                        Some(
                            match _body_framing(
                                method.as_slice(),
                                RequestOrResponse::from_event(event.clone()),
                            ) {
                                Framing::ContentLength(length) => MessageReader::ContentLength(
                                    ContentLengthReader::new(length as usize),
                                ),
                                Framing::Chunked => MessageReader::Chunked(ChunkedReader::new()),
                                Framing::Http10 => MessageReader::Http10(Http10Reader {  }),
                            },
                        )
                    },
                    None => None,
                },
                (Role::Client, State::Idle) => Some(
                    MessageReader::IdleClient(IdleClientReader {  }),
                ),
                (Role::Server, State::Idle) => Some(
                    MessageReader::SendResponseServer(SendResponseServerReader {  }),
                ),
                (Role::Server, State::SendResponse) => Some(
                    MessageReader::SendResponseServer(SendResponseServerReader {  }),
                ),
                (_, State::Done) => Some(MessageReader::Closed(ClosedReader {  })),
                (_, State::MustClose) => Some(MessageReader::Closed(ClosedReader {  })),
                (_, State::Closed) => Some(MessageReader::Closed(ClosedReader {  })),
                _ => None,
            };
        }
    }

    /// The data that was received and not used, and whether the peer has closed.
    pub fn get_trailing_data(&self) -> (r: (Vec<u8>, bool))
        ensures
            r.0@ == self@.buffer,
            r.1 == self@.closed,
    {
        (to_vec(self._receive_buffer.bytes()), self._receive_buffer_closed)
    }

    /// Takes data that the peer has sent; no data means that it has closed.
    pub fn receive_data(&mut self, data: &[u8]) -> (r: Result<(), String>)
        requires
            old(self).wf(),
        ensures
            (final(self)@, r is Ok) == fed(old(self)@, data@),
            r matches Err(message) ==> message@ == "received close, then received more data?"@,
            final(self).wf(),
    {
        if data.len() > 0 {
            if self._receive_buffer_closed {
                return Err("received close, then received more data?".to_owned());
            }
            self._receive_buffer.add(data);
        } else {
            self._receive_buffer_closed = true;
        }
        Ok(())
    }

    fn _extract_next_receive_event(&mut self) -> (r: Result<Event, ProtocolError>)
        requires
            old(self).wf(),
            old(self)@.their_state() != State::Error,
            can_extract(old(self)@),
        ensures
            (final(self)@, readers::event_outcome(r)) == extracted(old(self)@),
            final(self).wf(),
    {
        let state: State = self.get_their_state();
        if state == State::Done && self._receive_buffer.len() > 0 {
            return Ok(Event::Paused());
        }
        if state == State::MightSwitchProtocol || state == State::SwitchedProtocol {
            return Ok(Event::Paused());
        }
        match self._reader {
            Some(reader) => {
                let mut reader: MessageReader = reader;
                let event: Result<Option<Event>, ProtocolError> = reader.call(
                    &mut self._receive_buffer,
                );
                self._reader = Some(reader);
                match event {
                    Ok(Some(event)) => Ok(event),
                    Ok(None) => {
                        if self._receive_buffer.len() == 0 && self._receive_buffer_closed {
                            reader.read_eof()
                        } else {
                            Ok(Event::NeedData())
                        }
                    },
                    Err(e) => Err(e),
                }
            },
            None => Ok(Event::Paused()),
        }
    }

    fn _accept_event(&mut self, event: Event) -> (r: Result<Event, ProtocolError>)
        requires
            old(self).wf(),
            is_news(event@) ==> can_process(old(self)@, old(self)@.their_role(), event@),
        ensures
            (final(self)@, readers::event_outcome(r)) == accepted(old(self)@, event@),
            final(self).wf(),
    {
        match event {
            Event::Paused() => Ok(event),
            Event::NeedData() => {
                if self._receive_buffer.len() > self._max_incomplete_event_size {
                    return Err(
                        ProtocolError::RemoteProtocolError(
                            RemoteProtocolError {
                                message: "Receive buffer too long".to_owned(),
                                code: 431,
                            },
                        ),
                    );
                }
                if self._receive_buffer_closed {
                    return Err(remote_error("peer unexpectedly closed connection"));
                }
                Ok(event)
            },
            _ => match self._process_event(self.their_role, &event) {
                Ok(_) => Ok(event),
                Err(e) => Err(e),
            },
        }
    }

    /// Takes the next event out of the received data. An error is the peer's, and after it nothing
    /// more can be received; our side can still send.
    pub fn next_event(&mut self) -> (r: Result<Event, ProtocolError>)
        requires
            old(self).wf(),
            can_receive(old(self)@),
        ensures
            (final(self)@, readers::event_outcome(r)) == received(old(self)@),
            r matches Err(e) ==> e@ is Remote && final(self)@.their_state() == State::Error && (
            final(self)@.our_state() == State::Error ==> old(self)@.our_state() == State::Error),
            final(self).wf(),
    {
        assert(received(self@) matches (c, Err(e)) ==> e is Remote && c.their_state()
            == State::Error && (c.our_state() == State::Error ==> self@.our_state()
            == State::Error)) by {
            if received(self@).1 is Err {
                laws::law_receiving_fails_for_good(self@, Seq::empty());
            }
        }
        if self.get_their_state() == State::Error {
            return Err(remote_error("Can't receive data when peer state is ERROR"));
        }
        let outcome: Result<Event, ProtocolError> = match self._extract_next_receive_event() {
            Ok(event) => self._accept_event(event),
            Err(e) => Err(e),
        };
        match outcome {
            Ok(event) => Ok(event),
            Err(error) => {
                self._process_error(self.their_role);
                match error {
                    ProtocolError::LocalProtocolError(error) => Err(
                        ProtocolError::RemoteProtocolError(
                            error._reraise_as_remote_protocol_error(),
                        ),
                    ),
                    ProtocolError::RemoteProtocolError(error) => Err(
                        ProtocolError::RemoteProtocolError(error),
                    ),
                }
            },
        }
    }

    /// The same connection once more.
    fn copy(&self) -> (r: Connection)
        ensures
            r@ == self@,
            r.has_two_sides() == self.has_two_sides(),
    {
        Connection {
            our_role: self.our_role,
            their_role: self.their_role,
            _cstate: self._cstate,
            _writer: self._writer,
            _reader: self._reader,
            _max_incomplete_event_size: self._max_incomplete_event_size,
            _receive_buffer: self._receive_buffer.clone(),
            _receive_buffer_closed: self._receive_buffer_closed,
            their_http_version: copied(&self.their_http_version),
            _request_method: copied(&self._request_method),
            client_is_waiting_for_100_continue: self.client_is_waiting_for_100_continue,
        }
    }

    /// Tells whether the states can take an event of a side.
    fn can_take(&self, role: Role, event: &Event) -> (r: bool)
        ensures
            r == can_process(self@, role, event@),
    {
        if let Event::Request(request) = event {
            if role == Role::Client && !is_readable(&request.headers, "upgrade".as_bytes()) {
                return false;
            }
        }
        let mut cstate: ConnectionState = self._cstate;
        match step(&mut cstate, role, event) {
            Ok(_) => {},
            Err(_) => {
                return true;
            },
        }
        let mut method: Vec<u8> = self.method_or_empty();
        match event {
            Event::Request(request) => {
                if !is_readable(&request.headers, "connection".as_bytes()) {
                    return false;
                }
                if !bytes_before(request.http_version.as_slice(), "1.1".as_bytes())
                    && !is_readable(&request.headers, "expect".as_bytes()) {
                    return false;
                }
                method = to_vec(request.method.as_slice());
            },
            Event::NormalResponse(response) => {
                if !is_readable(&response.headers, "connection".as_bytes()) {
                    return false;
                }
            },
            _ => {},
        }
        if cstate.states.get(role) != State::SendBody || self._cstate.states.get(role)
            == State::SendBody {
            return true;
        }
        proof {
            lemma_starts_body(self._cstate, role, event@);
        }
        is_framed(method.as_slice(), &RequestOrResponse::from_event(event.clone()))
    }

    /// Tells whether the received data can be read.
    fn can_read_on(&self) -> (r: bool)
        requires
            self.wf(),
            self@.their_state() != State::Error,
        ensures
            r == can_extract(self@),
    {
        let state: State = self.get_their_state();
        if state == State::Done && self._receive_buffer.len() > 0 {
            return true;
        }
        if state == State::MightSwitchProtocol || state == State::SwitchedProtocol {
            return true;
        }
        proof {
            self._reader->0.lemma_reads_responses();
        }
        match self._reader {
            Some(MessageReader::SendResponseServer(_)) => {
                let mut buffer: ReceiveBuffer = self._receive_buffer.clone();
                match buffer.maybe_extract_lines() {
                    Some(lines) => {
                        if lines.len() == 0 {
                            return true;
                        }
                        assert(bytes::views(lines@)[0] == lines@[0]@);
                        match match_status_line(lines[0].as_slice()) {
                            Some(line) => line.reason.is_some(),
                            None => true,
                        }
                    },
                    None => true,
                }
            },
            _ => true,
        }
    }

    /// Takes the next event out of the received data, where that makes sense; `None`, with
    /// nothing changed, where it does not.
    pub fn try_next_event(&mut self) -> (r: Option<Result<Event, ProtocolError>>)
        requires
            old(self).wf(),
        ensures
            match r {
                Some(event) => can_receive(old(self)@) && (
                    final(self)@,
                    readers::event_outcome(event),
                ) == received(old(self)@),
                None => !can_receive(old(self)@) && final(self)@ == old(self)@,
            },
            final(self).wf(),
    {
        if self.get_their_state() == State::Error {
            return Some(self.next_event());
        }
        if !self.can_read_on() {
            return None;
        }
        let mut ahead: Connection = self.copy();
        if let Ok(event) = ahead._extract_next_receive_event() {
            let news: bool = match &event {
                Event::NeedData() => false,
                Event::Paused() => false,
                _ => true,
            };
            if news && !ahead.can_take(self.their_role, &event) {
                return None;
            }
        }
        Some(self.next_event())
    }

    /// Makes an event ready to be sent.
    fn prepare(&self, event: Event) -> (r: Result<Event, ProtocolError>)
        requires
            event@ matches EventView::NormalResponse(response) ==> can_clean(self@, response),
        ensures
            readers::event_outcome(r) == prepared(self@, event@),
    {
        match event {
            Event::NormalResponse(response) => match self._clean_up_response_headers_for_sending(
                response,
            ) {
                Ok(response) => Ok(Event::NormalResponse(response)),
                Err(e) => Err(e),
            },
            event => Ok(event),
        }
    }

    /// Hands an event to the writer.
    fn write(&mut self, event: &Event) -> (r: Result<Vec<u8>, ProtocolError>)
        requires
            event@ is ConnectionClosed || (old(self)@.writer matches Some(writer)
                ==> writers::accepts(writer, event@)),
        ensures
            (final(self)@, writers::output(r)) == after_writing(old(self)@, event@),
            final(self).has_two_sides() == old(self).has_two_sides(),
    {
        match self._writer {
            Some(writer) => {
                if let Event::ConnectionClosed(_) = event {
                    let none: Vec<u8> = Vec::new();
                    assert(none@ =~= Seq::<u8>::empty());
                    return Ok(none);
                }
                let mut writer: Writer = writer;
                let res: Result<Vec<u8>, ProtocolError> = writer.call(event.clone());
                self._writer = Some(writer);
                res
            },
            None => Err(local_error("Can't send data when our state is not SEND_BODY")),
        }
    }

    /// Makes an event ready, writes it down, and takes it into account.
    fn deliver(&mut self, event: Event) -> (r: Result<Option<Vec<u8>>, ProtocolError>)
        requires
            old(self).wf(),
            old(self)@.our_state() != State::Error,
            can_send_event(old(self)@, event@),
        ensures
            (final(self)@, sent_outcome(r)) == delivered(old(self)@, event@),
            final(self).wf(),
    {
        let event: Event = match self.prepare(event) {
            Ok(event) => event,
            Err(e) => {
                return Err(e);
            },
        };
        let res: Result<Vec<u8>, ProtocolError> = self.write(&event);
        match self._process_event(self.our_role, &event) {
            Ok(_) => {},
            Err(e) => {
                return Err(e);
            },
        }
        if let Event::ConnectionClosed(_) = event {
            return Ok(None);
        }
        match res {
            Ok(data) => Ok(Some(data)),
            Err(error) => Err(error),
        }
    }

    /// Makes the bytes that tell the peer of an event; `None` for the end of the connection.
    /// An error is ours, and after it our side can send no more.
    pub fn send(&mut self, event: Event) -> (r: Result<Option<Vec<u8>>, ProtocolError>)
        requires
            old(self).wf(),
            can_send_event(old(self)@, event@),
        ensures
            (final(self)@, sent_outcome(r)) == sent(old(self)@, event@),
            r matches Err(e) ==> e@ is Local && final(self)@.our_state() == State::Error,
            final(self).wf(),
    {
        assert(sent(self@, event@) matches (c, Err(e)) ==> e is Local && c.our_state()
            == State::Error) by {
            laws::law_sending_errors_are_local(self@, event@);
            laws::law_sending_fails_for_good(self@, event@, event@);
        }
        if self.get_our_state() == State::Error {
            return Err(local_error("Can't send data when our state is ERROR"));
        }
        match self.deliver(event) {
            Ok(data) => Ok(data),
            Err(error) => {
                self._process_error(self.our_role);
                Err(error)
            },
        }
    }

    /// Tells whether `send` can take an event.
    pub fn can_send(&self, event: &Event) -> (r: bool)
        requires
            self.wf(),
        ensures
            r == can_send_event(self@, event@),
    {
        if self.get_our_state() == State::Error {
            return true;
        }
        let event: Event = match event {
            Event::NormalResponse(response) => {
                if !self.can_clean_up(response) {
                    return false;
                }
                match self._clean_up_response_headers_for_sending(response.clone()) {
                    Ok(response) => Event::NormalResponse(response),
                    Err(_) => {
                        return true;
                    },
                }
            },
            _ => event.clone(),
        };
        let fits: bool = match (&event, &self._writer) {
            (Event::ConnectionClosed(_), _) => true,
            (_, None) => true,
            (Event::Request(_), Some(Writer::Request)) => true,
            (Event::NormalResponse(_), Some(Writer::Response)) => true,
            (Event::InformationalResponse(_), Some(Writer::Response)) => true,
            (Event::Data(_), Some(Writer::ContentLength(_))) => true,
            (Event::Data(_), Some(Writer::Chunked(_))) => true,
            (Event::Data(_), Some(Writer::Http10(_))) => true,
            (Event::EndOfMessage(_), Some(Writer::ContentLength(_))) => true,
            (Event::EndOfMessage(_), Some(Writer::Chunked(_))) => true,
            (Event::EndOfMessage(_), Some(Writer::Http10(_))) => true,
            _ => false,
        };
        proof {
            if let Some(Writer::ContentLength(writer)) = self._writer {
                writer.lemma_is_body();
            }
        }
        fits && self.can_take(self.our_role, &event)
    }

    /// Takes note that what `send` gave could not be sent.
    pub fn send_failed(&mut self)
        requires
            old(self).wf(),
        ensures
            final(self)@ == after_error(old(self)@, old(self)@.our_role),
            final(self).wf(),
    {
        self._process_error(self.our_role);
    }

    fn method_for_choosing_headers(&self) -> (r: Vec<u8>)
        ensures
            r@ == header_method(self@),
    {
        let method: Vec<u8> = self.method_or_empty();
        if bytes_eq(method.as_slice(), "HEAD".as_bytes()) {
            to_vec("GET".as_bytes())
        } else {
            method
        }
    }

    fn is_peer_modern(&self) -> (r: bool)
        ensures
            r == peer_is_modern(self@),
    {
        match &self.their_http_version {
            Some(version) => !bytes_before(version.as_slice(), "1.1".as_bytes()),
            None => false,
        }
    }

    /// Tells whether the length of a response's body is not announced.
    fn is_response_open_ended(&self, response: &Response) -> (r: bool)
        requires
            framing::has_framing(header_method(self@), HeadView::Response(response@)),
        ensures
            r == is_open_ended(self@, response@),
    {
        let method: Vec<u8> = self.method_for_choosing_headers();
        match _body_framing(method.as_slice(), RequestOrResponse::from(response.clone())) {
            Framing::ContentLength(_) => false,
            _ => true,
        }
    }

    /// Gives a response the framing that the peer understands.
    fn frame_response(&self, response: &Response) -> (r: Result<Headers, ProtocolError>)
        requires
            framing::has_framing(header_method(self@), HeadView::Response(response@)),
        ensures
            match framed_fields(self@, response@) {
                Ok(fields) => r is Ok && r->Ok_0@ == fields,
                Err(e) => r is Err && r->Err_0@ == e,
            },
    {
        if !self.is_response_open_ended(response) {
            return Ok(response.headers.clone());
        }
        let none: Vec<Vec<u8>> = Vec::new();
        assert(bytes::views(none@) =~= Seq::<Seq<u8>>::empty());
        let headers: Headers = match set_comma_header(
            &response.headers,
            "content-length".as_bytes(),
            none,
        ) {
            Ok(headers) => headers,
            Err(e) => {
                return Err(e);
            },
        };
        let mut codings: Vec<Vec<u8>> = Vec::new();
        if self.is_peer_modern() {
            codings.push(to_vec("chunked".as_bytes()));
            assert(bytes::views(codings@) =~= seq!["chunked".spec_bytes()]);
        } else {
            assert(bytes::views(codings@) =~= Seq::<Seq<u8>>::empty());
        }
        set_comma_header(&headers, "transfer-encoding".as_bytes(), codings)
    }

    /// Tells whether a response will be the last on the connection.
    fn is_last_response(&self, response: &Response) -> (r: bool)
        requires
            framing::has_framing(header_method(self@), HeadView::Response(response@)),
        ensures
            r == will_close(self@, response@),
    {
        let method: Vec<u8> = self.method_or_empty();
        !self._cstate.keep_alive || (self.is_response_open_ended(response)
            && !self.is_peer_modern() && !bytes_eq(method.as_slice(), "HEAD".as_bytes()))
    }

    /// Tells whether a response can be made ready to be sent.
    fn can_clean_up(&self, response: &Response) -> (r: bool)
        ensures
            r == can_clean(self@, response@),
    {
        let method: Vec<u8> = self.method_for_choosing_headers();
        if !is_framed(method.as_slice(), &RequestOrResponse::from(response.clone())) {
            return false;
        }
        match self.frame_response(response) {
            Ok(headers) => !self.is_last_response(response) || is_readable(
                &headers,
                "connection".as_bytes(),
            ),
            Err(_) => true,
        }
    }

    /// Makes a response ready to be sent: its body is framed in a way that the peer
    /// understands, and it says so if the connection will be closed.
    fn _clean_up_response_headers_for_sending(&self, response: Response) -> (r: Result<
        Response,
        ProtocolError,
    >)
        requires
            can_clean(self@, response@),
        ensures
            match cleaned(self@, response@) {
                Ok(response) => r is Ok && r->Ok_0@ == response,
                Err(e) => r is Err && r->Err_0@ == e,
            },
    {
        let mut headers: Headers = match self.frame_response(&response) {
            Ok(headers) => headers,
            Err(e) => {
                return Err(e);
            },
        };
        if self.is_last_response(&response) {
            proof {
                headers::lemma_lower_literals();
            }
            let items: Vec<Vec<u8>> = get_comma_header(&headers, "connection".as_bytes());
            let connection: Vec<Vec<u8>> = closing(&items);
            headers =
            match set_comma_header(&headers, "connection".as_bytes(), connection) {
                Ok(headers) => headers,
                Err(e) => {
                    return Err(e);
                },
            };
        }
        Ok(
            Response {
                headers,
                http_version: response.http_version,
                reason: response.reason,
                status_code: response.status_code,
            },
        )
    }
}

/// The bytes of a result, or the error.
pub open spec fn sent_outcome(r: Result<Option<Vec<u8>>, ProtocolError>) -> Result<
    Option<Seq<u8>>,
    ErrorView,
> {
    match r {
        Ok(data) => Ok(bytes::opt_view(data)),
        Err(e) => Err(e@),
    }
}

/// An event with which a side starts to send a body is a head.
pub proof fn lemma_starts_body(cs: ConnectionState, role: Role, event: EventView)
    requires
        stepped(cs, role, event).1 is Ok,
        stepped(cs, role, event).0.states.at(role) == State::SendBody,
        cs.states.at(role) != State::SendBody,
    ensures
        framing::is_head(event),
{
}

/// The items of a `Connection` field of a last response.
fn closing(items: &Vec<Vec<u8>>) -> (r: Vec<Vec<u8>>)
    ensures
        bytes::views(r@) == closing_items(bytes::views(items@)).push("close".spec_bytes()),
{
    let ghost all = bytes::views(items@);
    let mut out: Vec<Vec<u8>> = Vec::new();
    let mut i: usize = 0;
    assert(bytes::views(out@) =~= closing_items(all.take(0)));
    while i < items.len()
        invariant
            i <= items@.len(),
            all == bytes::views(items@),
            bytes::views(out@) == closing_items(all.take(i as int)),
        decreases items@.len() - i,
    {
        assert(all.take(i + 1).drop_last() =~= all.take(i as int));
        let item: &[u8] = items[i].as_slice();
        assert(all.take(i + 1).last() == item@);
        if !bytes_eq(item, "keep-alive".as_bytes()) && !bytes_eq(item, "close".as_bytes())
            && !contains_item(&out, item) {
            let ghost before = bytes::views(out@);
            out.push(to_vec(item));
            assert(bytes::views(out@) =~= before.push(item@));
        }
        i = i + 1;
    }
    assert(all.take(i as int) =~= all);
    let ghost before = bytes::views(out@);
    out.push(to_vec("close".as_bytes()));
    assert(bytes::views(out@) =~= before.push("close".spec_bytes()));
    out
}

} // verus!
