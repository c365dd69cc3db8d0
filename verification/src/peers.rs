//! The two ends of a connection stay in step: what one sends the other receives, and both come
//! to the same states.
use vstd::prelude::*;
use vstd::string::*;
use vstd::utf8::*;

use crate::bytes;
use crate::connection;
use crate::connection::ConnectionView;
use crate::events::{DataView, EventView, RequestView, ResponseView};
use crate::framing;
use crate::framing::{Framing, HeadView};
use crate::header_laws;
use crate::headers;
use crate::headers::Field;
use crate::readers::ReaderView;
use crate::roundtrip;
use crate::state;
use crate::state::{ConnectionState, Role, State};
use crate::util::ErrorView;
use crate::writers;
use crate::writers::WriterView;

verus! {

proof fn lemma_comma_chosen(fields: Seq<Field>, name: Seq<u8>)
    requires
        name != "host".spec_bytes(),
    ensures
        headers::comma_values(roundtrip::chosen(fields, true), name) == Seq::<Seq<u8>>::empty(),
        headers::comma_values(roundtrip::chosen(fields, false), name) == headers::comma_values(
            fields,
            name,
        ),
    decreases fields.len(),
{
    if fields.len() > 0 {
        lemma_comma_chosen(fields.drop_last(), name);
        let hosts = writers::is_host(fields.last());
        assert(roundtrip::chosen(fields, hosts).drop_last() =~= roundtrip::chosen(
            fields.drop_last(),
            hosts,
        ));
    }
}

/// Putting the host first changes the values of no other name.
proof fn lemma_comma_host_first(fields: Seq<Field>, name: Seq<u8>)
    requires
        name != "host".spec_bytes(),
    ensures
        headers::comma_values(roundtrip::host_first(fields), name) == headers::comma_values(
            fields,
            name,
        ),
{
    lemma_comma_chosen(fields, name);
    header_laws::lemma_comma_append(
        roundtrip::chosen(fields, true),
        roundtrip::chosen(fields, false),
        name,
    );
    assert(Seq::<Seq<u8>>::empty() + headers::comma_values(fields, name) =~= headers::comma_values(
        fields,
        name,
    ));
}

proof fn lemma_readable_host_first(fields: Seq<Field>, name: Seq<u8>)
    requires
        headers::readable(fields, name),
    ensures
        headers::readable(roundtrip::host_first(fields), name),
{
    let sorted = roundtrip::host_first(fields);
    let a = roundtrip::chosen(fields, true);
    let b = roundtrip::chosen(fields, false);
    roundtrip::lemma_chosen(fields, true);
    roundtrip::lemma_chosen(fields, false);
    assert forall|i: int| 0 <= i < sorted.len() && (#[trigger] sorted[i]).name
        == name implies valid_utf8(sorted[i].value) by {
        if i < a.len() {
            assert(sorted[i] == a[i]);
        } else {
            assert(sorted[i] == b[i - a.len()]);
        }
        assert(fields.contains(sorted[i]));
        let j = fields.index_of(sorted[i]);
        assert(fields[j].name == name);
    }
}

proof fn lemma_host_is_not_looked_up()
    ensures
        "host".spec_bytes() != "connection".spec_bytes(),
        "host".spec_bytes() != "upgrade".spec_bytes(),
        "host".spec_bytes() != "expect".spec_bytes(),
        "host".spec_bytes() != headers::content_length(),
        "host".spec_bytes() != headers::transfer_encoding(),
{
    headers::lemma_names_differ();
    reveal_strlit("host");
    reveal_strlit("connection");
    reveal_strlit("upgrade");
    reveal_strlit("expect");
    is_ascii_spec_bytes("host");
    is_ascii_spec_bytes("connection");
    is_ascii_spec_bytes("upgrade");
    is_ascii_spec_bytes("expect");
}

/// An event as it arrives: the host is first, and a chunk is marked as one.
pub open spec fn arrived(writer: Option<WriterView>, event: EventView) -> EventView {
    match event {
        EventView::Request(request) => EventView::Request(
            RequestView { headers: roundtrip::host_first(request.headers), ..request },
        ),
        EventView::NormalResponse(response) => EventView::NormalResponse(
            ResponseView { headers: roundtrip::host_first(response.headers), ..response },
        ),
        EventView::InformationalResponse(response) => EventView::InformationalResponse(
            ResponseView { headers: roundtrip::host_first(response.headers), ..response },
        ),
        EventView::Data(data) => {
            let whole = writer == Some(WriterView::Chunked);
            EventView::Data(DataView { chunk_start: whole, chunk_end: whole, ..data })
        },
        EventView::EndOfMessage(fields) => EventView::EndOfMessage(roundtrip::host_first(fields)),
        _ => event,
    }
}

/// What the states look at is the same in an event and in the event as it arrives.
proof fn lemma_arrived_looks_same(
    writer: Option<WriterView>,
    event: EventView,
    cs: ConnectionState,
    role: Role,
    method: Seq<u8>,
)
    ensures
        ({
            let after = arrived(writer, event);
            &&& connection::stepped(cs, role, after) == connection::stepped(cs, role, event)
            &&& framing::is_head(after) == framing::is_head(event)
            &&& framing::is_head(event) ==> {
                let a = framing::head_of(event);
                let b = framing::head_of(after);
                &&& framing::keeps_alive(b) == framing::keeps_alive(a)
                &&& framing::framing(method, b) == framing::framing(method, a)
                &&& framing::has_framing(method, b) == framing::has_framing(method, a)
            }
            &&& forall|m: Option<Seq<u8>>| #[trigger]
                connection::method_after(m, after) == connection::method_after(m, event)
            &&& forall|waiting: bool| #[trigger]
                connection::waiting_after(waiting, role, after) == connection::waiting_after(
                    waiting,
                    role,
                    event,
                )
        }),
{
    lemma_host_is_not_looked_up();
    if let EventView::Request(request) = event {
        lemma_comma_host_first(request.headers, "connection".spec_bytes());
        lemma_comma_host_first(request.headers, "upgrade".spec_bytes());
        lemma_comma_host_first(request.headers, "expect".spec_bytes());
        lemma_comma_host_first(request.headers, headers::content_length());
        lemma_comma_host_first(request.headers, headers::transfer_encoding());
    }
    if let EventView::NormalResponse(response) = event {
        lemma_comma_host_first(response.headers, "connection".spec_bytes());
        lemma_comma_host_first(response.headers, headers::content_length());
        lemma_comma_host_first(response.headers, headers::transfer_encoding());
    }
}

/// What one end writes next is what the other end reads next.
pub open spec fn is_linked(from: ConnectionView, to: ConnectionView) -> bool {
    let empty = to.buffer.len() == 0;
    match from.our_state() {
        State::Idle => match from.our_role {
            Role::Client => from.writer == Some(WriterView::Request) && to.reader == Some(
                ReaderView::IdleClient,
            ) && empty,
            Role::Server => from.writer == Some(WriterView::Response) && to.reader == Some(
                ReaderView::SendResponseServer,
            ) && empty,
        },
        State::SendResponse => from.writer == Some(WriterView::Response) && to.reader == Some(
            ReaderView::SendResponseServer,
        ) && empty,
        State::SendBody => match (from.writer, to.reader) {
            (
                Some(WriterView::ContentLength { length }),
                Some(ReaderView::ContentLength { length: whole, remaining }),
            ) => length == remaining && remaining <= whole && empty,
            (
                Some(WriterView::Chunked),
                Some(ReaderView::Chunked { bytes_in_chunk, bytes_to_discard, reading_trailer }),
            ) => bytes_in_chunk == 0 && bytes_to_discard == to.buffer.len() && !reading_trailer,
            (Some(WriterView::Http10), Some(ReaderView::Http10)) => empty,
            _ => false,
        },
        State::Done => to.reader == Some(ReaderView::Closed) && empty,
        State::MustClose => to.reader == Some(ReaderView::Closed) && empty,
        State::Closed => to.reader == Some(ReaderView::Closed) && empty,
        _ => empty,
    }
}

/// Whether two connections are the two ends of one, with nothing under way between them.
pub open spec fn in_step(a: ConnectionView, b: ConnectionView) -> bool {
    &&& connection::healthy(a)
    &&& connection::healthy(b)
    &&& b.our_role == connection::other(a.our_role)
    &&& a.cstate == b.cstate
    &&& a.request_method == b.request_method
    &&& a.waiting_for_100_continue == b.waiting_for_100_continue
    &&& is_linked(a, b)
    &&& is_linked(b, a)
    &&& b.closed ==> a.our_state() == State::Closed
    &&& a.closed ==> b.our_state() == State::Closed
}

/// Two fresh connections are in step.
pub proof fn law_fresh_peers_are_in_step(role: Role, size: Option<usize>, other_size: Option<usize>)
    ensures
        in_step(
            connection::fresh(role, size),
            connection::fresh(connection::other(role), other_size),
        ),
{
}

/// The bytes of a sent event reach the other end; the end of the connection does too.
pub open spec fn delivered(to: ConnectionView, data: Option<Seq<u8>>) -> ConnectionView {
    match data {
        Some(bytes) => if bytes.len() == 0 {
            to
        } else {
            connection::fed(to, bytes).0
        },
        None => connection::fed(to, Seq::empty()).0,
    }
}

/// Whether an event that is ready to be sent can be told from its bytes alone: heads are
/// well-formed and of the right sort, data is not empty, and an end is marked.
pub open spec fn is_tellable(writer: Option<WriterView>, event: EventView) -> bool {
    match event {
        EventView::Request(request) => roundtrip::is_sendable_request(request),
        EventView::NormalResponse(response) => roundtrip::is_sendable_response(response)
            && response.status_code >= 200,
        EventView::InformationalResponse(response) => roundtrip::is_sendable_response(response)
            && response.status_code < 200,
        EventView::Data(data) => 0 < data.data.len() <= usize::MAX && (writer == Some(
            WriterView::Http10,
        ) ==> data.data.len() <= 999999999),
        EventView::EndOfMessage(fields) => headers::valid_fields(fields)
            && roundtrip::are_sendable(fields) && writer != Some(WriterView::Http10),
        EventView::ConnectionClosed => true,
        _ => false,
    }
}

/// The states in which an event is allowed.
proof fn lemma_allowed(cs: ConnectionState, role: Role, event: EventView)
    requires
        connection::sane(cs),
        connection::stepped(cs, role, event).1 is Ok,
    ensures
        match event {
            EventView::Request(_) => role == Role::Client && cs.states.client == State::Idle,
            EventView::NormalResponse(_) => role == Role::Server && (cs.states.server
                == State::Idle || cs.states.server == State::SendResponse),
            EventView::InformationalResponse(_) => role == Role::Server && cs.states.server
                == State::SendResponse,
            EventView::Data(_) => cs.states.at(role) == State::SendBody,
            EventView::EndOfMessage(_) => cs.states.at(role) == State::SendBody,
            EventView::ConnectionClosed => cs.states.at(role) == State::Idle || cs.states.at(role)
                == State::Done || cs.states.at(role) == State::MustClose || cs.states.at(role)
                == State::Closed,
            _ => false,
        },
{
    connection::lemma_noted_sane(cs, role, event);
}

/// What the other end is left with once an event was read.
spec fn is_read(
    a: ConnectionView,
    b: ConnectionView,
    event: EventView,
    after: ConnectionView,
) -> bool {
    let written = connection::after_writing(a, event).0;
    &&& after == (ConnectionView {
        reader: after.reader,
        buffer: after.buffer,
        closed: after.closed,
        ..b
    })
    &&& after.closed == (b.closed || event is ConnectionClosed)
    &&& after.reader is Some
    &&& match event {
        EventView::Data(_) => is_linked(written, after),
        EventView::EndOfMessage(_) => after.buffer.len() == 0,
        _ => after.buffer.len() == 0 && after.reader == b.reader && written == a,
    }
}

proof fn lemma_extracted(a: ConnectionView, b: ConnectionView, event: EventView)
    requires
        in_step(a, b),
        connection::stepped(a.cstate, a.our_role, event).1 is Ok,
        is_tellable(a.writer, event),
        event is ConnectionClosed || connection::after_writing(a, event).1 is Ok,
    ensures
        ({
            let data = if event is ConnectionClosed {
                None
            } else {
                Some(connection::after_writing(a, event).1->Ok_0)
            };
            let start = delivered(b, data);
            let after = connection::extracted(start).0;
            &&& start.their_state() == a.our_state()
            &&& start.their_state() != State::Error
            &&& connection::can_extract(start)
            &&& connection::extracted(start).1 == Ok::<EventView, ErrorView>(
                arrived(a.writer, event),
            )
            &&& is_read(a, b, event, after)
        }),
{
    lemma_allowed(a.cstate, a.our_role, event);
    let none = Seq::<u8>::empty();
    let fields = Seq::<Field>::empty();
    assert(roundtrip::host_first(fields) =~= fields);
    if event is ConnectionClosed {
        assert(b.buffer =~= none);
        assert(crate::receivebuffer::lines_at(none) is None);
    } else {
        let bytes = connection::after_writing(a, event).1->Ok_0;
        let gap = b.buffer;
        match event {
            EventView::Request(request) => {
                assert(gap =~= none);
                roundtrip::law_request_round_trip(request, none);
                assert(gap + bytes =~= bytes + none);
                lemma_written_request_nonempty(request);
            },
            EventView::NormalResponse(response) => {
                assert(gap =~= none);
                roundtrip::law_response_round_trip(response, none);
                assert(gap + bytes =~= bytes + none);
                lemma_written_response_nonempty(response);
            },
            EventView::InformationalResponse(response) => {
                assert(gap =~= none);
                roundtrip::law_response_round_trip(response, none);
                assert(gap + bytes =~= bytes + none);
                lemma_written_response_nonempty(response);
            },
            EventView::Data(data) => {
                match b.reader->0 {
                    ReaderView::ContentLength { length, remaining } => {
                        assert(gap =~= none);
                        assert(gap + bytes =~= data.data);
                        roundtrip::law_content_length_round_trip(length, remaining, data.data);
                    },
                    ReaderView::Chunked { .. } => {
                        roundtrip::law_chunk_round_trip(data.data, gap, none);
                        assert(gap + bytes + none =~= gap + bytes);
                        assert(bytes::crlf() + none =~= bytes::crlf());
                        assert(bytes.len() > 0);
                    },
                    _ => {
                        assert(gap =~= none);
                        assert(gap + bytes =~= data.data);
                        roundtrip::law_http10_round_trip(data.data);
                    },
                }
            },
            EventView::EndOfMessage(trailer) => {
                match b.reader->0 {
                    ReaderView::ContentLength { .. } => {
                        assert(trailer =~= fields);
                    },
                    _ => {
                        roundtrip::law_chunked_end_round_trip(trailer, gap, none);
                        assert(gap + bytes + none =~= gap + bytes);
                        assert(bytes.len() > 0);
                    },
                }
            },
            _ => {},
        }
    }
}

proof fn lemma_written_request_nonempty(request: RequestView)
    requires
        writers::written_request(request) is Ok,
    ensures
        writers::written_request(request)->Ok_0.len() > 0,
{
}

proof fn lemma_written_response_nonempty(response: ResponseView)
    requires
        writers::written_response(response) is Ok,
    ensures
        writers::written_response(response)->Ok_0.len() > 0,
{
}

/// The other end can take the event as it arrives.
proof fn lemma_can_process_arrived(
    a: ConnectionView,
    b: ConnectionView,
    writer: Option<WriterView>,
    event: EventView,
)
    requires
        a.cstate == b.cstate,
        a.request_method == b.request_method,
        connection::can_process(a, a.our_role, event),
    ensures
        connection::can_process(b, a.our_role, arrived(writer, event)),
{
    let method = ConnectionView {
        request_method: connection::method_after(a.request_method, event),
        ..a
    }.method();
    lemma_arrived_looks_same(writer, event, a.cstate, a.our_role, method);
    let r = connection::stepped(a.cstate, a.our_role, event).1;
    match event {
        EventView::Request(request) => {
            if a.our_role == Role::Client {
                lemma_readable_host_first(request.headers, "upgrade".spec_bytes());
            }
            if r is Ok {
                lemma_readable_host_first(request.headers, "connection".spec_bytes());
                if !bytes::precedes(request.http_version, "1.1".spec_bytes()) {
                    lemma_readable_host_first(request.headers, "expect".spec_bytes());
                }
            }
        },
        EventView::NormalResponse(response) => {
            if r is Ok {
                lemma_readable_host_first(response.headers, "connection".spec_bytes());
            }
        },
        _ => {},
    }
    if r is Ok && connection::stepped(a.cstate, a.our_role, event).0.states.at(a.our_role)
        == State::SendBody && a.cstate.states.at(a.our_role) != State::SendBody {
        connection::lemma_starts_body(a.cstate, a.our_role, event);
    }
}

/// A step of both ends on the same event leaves them in step.
proof fn lemma_both_step(
    a: ConnectionView,
    b: ConnectionView,
    event: EventView,
    read: ConnectionView,
)
    requires
        in_step(a, b),
        connection::stepped(a.cstate, a.our_role, event).1 is Ok,
        is_read(a, b, event, read),
        event is Request || event is NormalResponse ==> framing::has_framing(
            ConnectionView {
                request_method: connection::method_after(a.request_method, event),
                ..a
            }.method(),
            framing::head_of(event),
        ) || connection::stepped(a.cstate, a.our_role, event).0.states.at(a.our_role)
            != State::SendBody,
    ensures
        ({
            let written = connection::after_writing(a, event).0;
            let (left, r) = connection::after_event(written, a.our_role, event);
            let (right, q) = connection::after_event(
                read,
                a.our_role,
                arrived(a.writer, event),
            );
            r is Ok && q is Ok && in_step(left, right)
        }),
{
    let role = a.our_role;
    let side = b.our_role;
    let written = connection::after_writing(a, event).0;
    let after = arrived(a.writer, event);
    let method = ConnectionView {
        request_method: connection::method_after(a.request_method, event),
        ..a
    }.method();
    let left = connection::after_event(written, role, event).0;
    let right = connection::after_event(read, role, after).0;
    lemma_arrived_looks_same(a.writer, event, a.cstate, role, method);
    lemma_allowed(a.cstate, role, event);
    connection::lemma_after_event_healthy(written, role, event);
    connection::lemma_after_event_healthy(read, role, after);
    assert(left.cstate == right.cstate);
    assert(left.cstate.states.at(side) == State::SendBody ==> a.cstate.states.at(side)
        == State::SendBody) by {
        assert(written.cstate.states.at(side) == a.cstate.states.at(side));
    }
    assert(left.request_method == right.request_method);
    assert(left.waiting_for_100_continue == right.waiting_for_100_continue);
    lemma_linked_there(a, b, event, read);
    lemma_linked_back(a, b, event, read);
    lemma_closed_flags(a.cstate, role, event);
}

proof fn lemma_closed_flags(cs: ConnectionState, role: Role, event: EventView)
    requires
        connection::sane(cs),
        connection::stepped(cs, role, event).1 is Ok,
    ensures
        ({
            let after = connection::stepped(cs, role, event).0;
            let off = state::without_keep_alive(after);
            let side = connection::other(role);
            &&& cs.states.at(side) == State::Closed ==> after.states.at(side) == State::Closed
                && off.states.at(side) == State::Closed
            &&& event is ConnectionClosed || cs.states.at(role) == State::Closed
                ==> after.states.at(role) == State::Closed && off.states.at(role) == State::Closed
        }),
{
    connection::lemma_noted_sane(cs, role, event);
    lemma_allowed(cs, role, event);
}

/// The direction in which the event went.
proof fn lemma_linked_there(
    a: ConnectionView,
    b: ConnectionView,
    event: EventView,
    read: ConnectionView,
)
    requires
        in_step(a, b),
        connection::stepped(a.cstate, a.our_role, event).1 is Ok,
        is_read(a, b, event, read),
        event is Request || event is NormalResponse ==> framing::has_framing(
            ConnectionView {
                request_method: connection::method_after(a.request_method, event),
                ..a
            }.method(),
            framing::head_of(event),
        ) || connection::stepped(a.cstate, a.our_role, event).0.states.at(a.our_role)
            != State::SendBody,
    ensures
        is_linked(
            connection::after_event(
                connection::after_writing(a, event).0,
                a.our_role,
                event,
            ).0,
            connection::after_event(read, a.our_role, arrived(a.writer, event)).0,
        ),
{
    let role = a.our_role;
    let written = connection::after_writing(a, event).0;
    let after = arrived(a.writer, event);
    let method = ConnectionView {
        request_method: connection::method_after(a.request_method, event),
        ..a
    }.method();
    let left = connection::after_event(written, role, event).0;
    let right = connection::after_event(read, role, after).0;
    lemma_arrived_looks_same(a.writer, event, a.cstate, role, method);
    lemma_allowed(a.cstate, role, event);
    connection::lemma_after_event_healthy(written, role, event);
    assert(left.our_state() == right.their_state());
    assert(right.their_role() == role);
    if left.our_state() != a.our_state() {
        assert(left.writer == connection::writer_for(role, left.our_state(), method, event));
        assert(right.reader == connection::reader_for(role, left.our_state(), method, after));
        assert(right.buffer.len() == 0);
        if left.our_state() == State::SendBody {
            assert(written.cstate.states.at(role) != State::SendBody);
            assert(framing::is_head(event));
            lemma_framing_length(method, framing::head_of(event));
        }
    } else {
        assert(left.writer == written.writer);
        assert(right.reader == read.reader);
    }
}

/// A framing by length has a length that makes sense.
proof fn lemma_framing_length(method: Seq<u8>, head: HeadView)
    requires
        framing::has_framing(method, head),
    ensures
        framing::framing(method, head) matches Framing::ContentLength(length) ==> length >= 0,
{
}

/// The other direction.
proof fn lemma_linked_back(
    a: ConnectionView,
    b: ConnectionView,
    event: EventView,
    read: ConnectionView,
)
    requires
        in_step(a, b),
        connection::stepped(a.cstate, a.our_role, event).1 is Ok,
        is_read(a, b, event, read),
    ensures
        is_linked(
            connection::after_event(read, a.our_role, arrived(a.writer, event)).0,
            connection::after_event(
                connection::after_writing(a, event).0,
                a.our_role,
                event,
            ).0,
        ),
{
    let role = a.our_role;
    let side = b.our_role;
    let written = connection::after_writing(a, event).0;
    let after = arrived(a.writer, event);
    let method = ConnectionView {
        request_method: connection::method_after(a.request_method, event),
        ..a
    }.method();
    let left = connection::after_event(written, role, event).0;
    let right = connection::after_event(read, role, after).0;
    lemma_arrived_looks_same(a.writer, event, a.cstate, role, method);
    lemma_allowed(a.cstate, role, event);
    connection::lemma_after_event_healthy(written, role, event);
    assert(written.cstate.states.at(side) == a.cstate.states.at(side));
    assert(right.our_state() == left.their_state());
    assert(left.their_role() == side);
    if right.our_state() != b.our_state() {
        assert(right.our_state() != State::SendBody);
        assert(b.our_state() != State::SendBody) by {
            if b.our_state() == State::SendBody {
                lemma_body_goes_on(a.cstate, role, event);
            }
        }
        assert(left.buffer.len() == 0);
    }
}

/// A side that sends a body goes on when the other side has an event.
proof fn lemma_body_goes_on(cs: ConnectionState, role: Role, event: EventView)
    requires
        connection::sane(cs),
        connection::stepped(cs, role, event).1 is Ok,
        cs.states.at(connection::other(role)) == State::SendBody,
    ensures
        connection::stepped(cs, role, event).0.states.at(connection::other(role))
            == State::SendBody,
        state::without_keep_alive(connection::stepped(cs, role, event).0).states.at(
            connection::other(role),
        ) == State::SendBody,
{
    connection::lemma_noted_sane(cs, role, event);
    lemma_allowed(cs, role, event);
}

/// What one end sends the other receives, and after that both are in step again: their states,
/// the switches that are proposed, the method of the request, and whether the client waits, are
/// the same. The event arrives with its host first, and a chunk arrives marked as one. `ready` is
/// the event as `send` makes it ready.
pub proof fn law_peers_stay_in_step(
    a: ConnectionView,
    b: ConnectionView,
    event: EventView,
    ready: EventView,
    data: Option<Seq<u8>>,
)
    requires
        in_step(a, b),
        connection::can_send_event(a, event),
        connection::prepared(a, event) == Ok::<EventView, ErrorView>(ready),
        connection::sent(a, event).1 == Ok::<Option<Seq<u8>>, ErrorView>(data),
        is_tellable(a.writer, ready),
    ensures
        connection::can_receive(delivered(b, data)),
        connection::received(delivered(b, data)).1 == Ok::<EventView, ErrorView>(
            arrived(a.writer, ready),
        ),
        in_step(connection::sent(a, event).0, connection::received(delivered(b, data)).0),
{
    let role = a.our_role;
    let (written, out) = connection::after_writing(a, ready);
    lemma_written_keeps(a, ready);
    assert(connection::stepped(a.cstate, role, ready).1 is Ok);
    lemma_extracted(a, b, ready);
    let start = delivered(b, data);
    let read = connection::extracted(start).0;
    let after = arrived(a.writer, ready);
    lemma_can_process_arrived(a, read, a.writer, ready);
    if framing::is_head(ready) && connection::stepped(a.cstate, role, ready).0.states.at(role)
        == State::SendBody {
        lemma_allowed(a.cstate, role, ready);
    }
    lemma_both_step(a, b, ready, read);
    assert(connection::is_news(after));
    assert(connection::accepted(read, after).1 == Ok::<EventView, ErrorView>(after));
}

/// Writing changes the writer alone.
proof fn lemma_written_keeps(a: ConnectionView, event: EventView)
    ensures
        connection::after_writing(a, event).0 == (ConnectionView {
            writer: connection::after_writing(a, event).0.writer,
            ..a
        }),
{
}

/// Whether the peer has closed makes no difference to what an event does.
proof fn lemma_closed_is_apart(c: ConnectionView, role: Role, event: EventView)
    ensures
        connection::after_event(ConnectionView { closed: true, ..c }, role, event) == (
            ConnectionView { closed: true, ..connection::after_event(c, role, event).0 },
            connection::after_event(c, role, event).1,
        ),
{
}

/// The end of the body, as the other end sees it once the connection is closed; but for the mark
/// that it is closed, the two are in step then.
proof fn lemma_body_ends(a: ConnectionView, b: ConnectionView) -> (half: ConnectionView)
    requires
        in_step(a, b),
        a.our_state() == State::SendBody,
        a.writer == Some(WriterView::Http10),
        connection::sent(a, EventView::EndOfMessage(Seq::empty())).1 is Ok,
    ensures
        in_step(connection::sent(a, EventView::EndOfMessage(Seq::empty())).0, half),
        connection::received(delivered(b, None)) == (
            delivered(half, None),
            Ok::<EventView, ErrorView>(EventView::EndOfMessage(Seq::empty())),
        ),
{
    let role = a.our_role;
    let fields = Seq::<Field>::empty();
    let end = EventView::EndOfMessage(fields);
    let none = Seq::<u8>::empty();
    assert(b.buffer =~= none);
    assert(roundtrip::host_first(fields) =~= fields);
    assert(arrived(a.writer, end) == end);
    let start = delivered(b, None);
    let read = connection::extracted(start).0;
    let open = ConnectionView { closed: false, ..read };
    assert(connection::extracted(start).1 == Ok::<EventView, ErrorView>(end));
    assert(connection::stepped(a.cstate, role, end).1 is Ok);
    assert(!b.closed);
    assert(is_read(a, b, end, open));
    lemma_both_step(a, b, end, open);
    lemma_closed_is_apart(open, role, end);
    assert(read == (ConnectionView { closed: true, ..open }));
    connection::after_event(open, role, end).0
}

/// A body that nothing else frames ends with the connection: once the sender has ended it and
/// closed, the other end receives the end of the message and then that of the connection, and
/// both are in step again.
pub proof fn law_closing_ends_the_body(a: ConnectionView, b: ConnectionView)
    requires
        in_step(a, b),
        a.our_state() == State::SendBody,
        a.writer == Some(WriterView::Http10),
        ({
            let (ended, r) = connection::sent(a, EventView::EndOfMessage(Seq::empty()));
            let (closed, q) = connection::sent(ended, EventView::ConnectionClosed);
            &&& r == Ok::<Option<Seq<u8>>, ErrorView>(Some(Seq::empty()))
            &&& q == Ok::<Option<Seq<u8>>, ErrorView>(None)
            &&& connection::can_send_event(ended, EventView::ConnectionClosed)
        }),
    ensures
        ({
            let (ended, _) = connection::sent(a, EventView::EndOfMessage(Seq::empty()));
            let (closed, _) = connection::sent(ended, EventView::ConnectionClosed);
            let (first, r) = connection::received(delivered(b, None));
            let (second, q) = connection::received(first);
            &&& r == Ok::<EventView, ErrorView>(EventView::EndOfMessage(Seq::empty()))
            &&& q == Ok::<EventView, ErrorView>(EventView::ConnectionClosed)
            &&& in_step(closed, second)
        }),
{
    let end = EventView::EndOfMessage(Seq::empty());
    let ended = connection::sent(a, end).0;
    let half = lemma_body_ends(a, b);
    law_peers_stay_in_step(
        ended,
        half,
        EventView::ConnectionClosed,
        EventView::ConnectionClosed,
        None,
    );
}

/// When both sides are done, both ends can start a new cycle, and are in step in it.
pub proof fn law_peers_restart_in_step(a: ConnectionView, b: ConnectionView)
    requires
        in_step(a, b),
        a.our_state() == State::Done,
        b.our_state() == State::Done,
    ensures
        connection::next_cycle(a).1 is Ok,
        connection::next_cycle(b).1 is Ok,
        in_step(connection::next_cycle(a).0, connection::next_cycle(b).0),
{
    connection::lemma_next_cycle_healthy(a);
    connection::lemma_next_cycle_healthy(b);
}

} // verus!
