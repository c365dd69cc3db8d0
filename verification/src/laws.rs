//! Laws of the state machine and of connections: what every operation keeps, what repeats, and
//! whose fault an error is.
use vstd::prelude::*;
use vstd::string::*;

use crate::connection;
use crate::connection::ConnectionView;
use crate::events::{EventView, RequestView, ResponseView};
use crate::headers;
use crate::headers::Field;
use crate::readers;
use crate::state;
use crate::state::{ConnectionState, EventType, Proposals, Role, State, States, Switch};
use crate::util::ErrorView;
use crate::writers;

verus! {

/// Once the sides have settled there is nothing left to settle: a client is done only if no
/// switch is proposed, and waits for one only if one is; no side is done if the connection is not
/// kept alive; and no two states stand side by side of which one forces the other on. Nothing but
/// the states has changed.
pub proof fn law_settled_is_stable(cs: ConnectionState)
    ensures
        state::settled(state::settled(cs)) == state::settled(cs),
        state::settled(cs).consistent(),
        ({
            let after = state::settled(cs);
            let client = after.states.client;
            let server = after.states.server;
            let proposed = cs.pending_switch_proposals != Proposals::nothing();
            &&& after.keep_alive == cs.keep_alive
            &&& after.pending_switch_proposals == cs.pending_switch_proposals
            &&& proposed ==> client != State::Done
            &&& !proposed ==> client != State::MightSwitchProtocol
            &&& !cs.keep_alive ==> client != State::Done && server != State::Done
            &&& client == State::MightSwitchProtocol ==> server != State::SwitchedProtocol
            &&& client == State::Closed ==> server != State::Done && server != State::Idle
            &&& client == State::Error ==> server != State::Done
            &&& client == State::Done ==> server != State::Closed && server != State::Error
            &&& client == State::Idle ==> server != State::Closed
        }),
{
}

/// A side that is in the error state stays there, whatever else happens.
pub proof fn law_error_is_final(
    cs: ConnectionState,
    side: Role,
    role: Role,
    event_type: EventType,
    switch: Option<Switch>,
    proposal: Switch,
)
    requires
        cs.states.at(side) == State::Error,
    ensures
        state::processed(cs, role, event_type, switch).0.states.at(side) == State::Error,
        state::failed(cs, role).states.at(side) == State::Error,
        state::without_keep_alive(cs).states.at(side) == State::Error,
        state::with_proposal(cs, proposal).states.at(side) == State::Error,
        state::restarted(cs).0.states.at(side) == State::Error,
{
}

/// An event that is not allowed is our error, and nothing happens.
pub proof fn law_refused_event_moves_nothing(
    cs: ConnectionState,
    role: Role,
    event_type: EventType,
    switch: Option<Switch>,
)
    requires
        state::processed(cs, role, event_type, switch).1 is Err,
    ensures
        state::processed(cs, role, event_type, switch).0 == cs,
        state::processed(cs, role, event_type, switch).1->Err_0 is Local,
{
}

/// A connection that is not kept alive never comes to a state from which a new cycle starts.
pub proof fn law_no_cycle_without_keep_alive(cs: ConnectionState)
    requires
        cs.consistent(),
        !cs.keep_alive,
    ensures
        state::restarted(cs).1 is Err,
        state::restarted(cs).0 == cs,
{
}

/// Once keep-alive is off it stays off.
pub proof fn law_keep_alive_stays_off(
    cs: ConnectionState,
    role: Role,
    event_type: EventType,
    switch: Option<Switch>,
    proposal: Switch,
)
    requires
        !cs.keep_alive,
    ensures
        !state::processed(cs, role, event_type, switch).0.keep_alive,
        !state::failed(cs, role).keep_alive,
        !state::without_keep_alive(cs).keep_alive,
        !state::with_proposal(cs, proposal).keep_alive,
        !state::restarted(cs).0.keep_alive,
{
}

/// A new cycle starts exactly when both sides are done, and then as a fresh connection would.
pub proof fn law_cycle_starts_when_both_are_done(cs: ConnectionState)
    requires
        cs.consistent(),
    ensures
        state::restarted(cs).1 is Ok <==> cs.states.client == State::Done && cs.states.server
            == State::Done,
        state::restarted(cs).1 is Ok ==> state::restarted(cs).0 == state::initial(),
{
}

/// A client that is done while a switch is proposed waits; if the server turns the proposal
/// down it is done again, if the server switches it switches too.
pub proof fn law_proposed_switch(cs: ConnectionState, switch: Switch)
    requires
        cs.states.client == State::Done,
        cs.states.server == State::SendResponse,
        cs.keep_alive,
        cs.pending_switch_proposals == Proposals::nothing(),
        switch == Switch::SwitchConnect || switch == Switch::SwitchUpgrade,
    ensures
        ({
            let waiting = state::with_proposal(cs, switch);
            let event_type = if switch == Switch::SwitchConnect {
                EventType::NormalResponse
            } else {
                EventType::InformationalResponse
            };
            let denied = state::processed(waiting, Role::Server, EventType::NormalResponse, None);
            let agreed = state::processed(waiting, Role::Server, event_type, Some(switch));
            &&& waiting.states == (States {
                client: State::MightSwitchProtocol,
                server: State::SendResponse,
            })
            &&& denied.1 is Ok
            &&& denied.0.states == (States { client: State::Done, server: State::SendBody })
            &&& denied.0.pending_switch_proposals == Proposals::nothing()
            &&& agreed.1 is Ok
            &&& agreed.0.states == (States {
                client: State::SwitchedProtocol,
                server: State::SwitchedProtocol,
            })
        }),
{
}

/// Closing a side that is closed already is allowed and changes nothing.
pub proof fn law_closing_twice_is_closing_once(cs: ConnectionState, role: Role)
    requires
        state::settled(cs) == cs,
        cs.states.at(role) == State::Closed,
    ensures
        state::processed(cs, role, EventType::ConnectionClosed, None) == (
            cs,
            Ok::<(), ErrorView>(()),
        ),
{
}

proof fn lemma_sending_keeps_healthy(c: ConnectionView, event: EventView)
    requires
        connection::healthy(c),
    ensures
        connection::healthy(connection::sent(c, event).0),
{
    connection::lemma_after_error_healthy(c, c.our_role);
    if let Ok(prepared) = connection::prepared(c, event) {
        let (first, _) = connection::after_writing(c, prepared);
        connection::lemma_after_event_healthy(first, c.our_role, prepared);
        let (second, _) = connection::after_event(first, c.our_role, prepared);
        connection::lemma_after_error_healthy(second, c.our_role);
    }
}

proof fn lemma_receiving_keeps_healthy(c: ConnectionView)
    requires
        connection::healthy(c),
    ensures
        connection::healthy(connection::received(c).0),
{
    let (first, r) = connection::extracted(c);
    connection::lemma_after_error_healthy(first, c.their_role());
    if let Ok(event) = r {
        connection::lemma_after_event_healthy(first, c.their_role(), event);
        let (second, _) = connection::accepted(first, event);
        connection::lemma_after_error_healthy(second, c.their_role());
    }
}

/// The operations of a connection keep it healthy.
pub proof fn law_connections_stay_healthy(
    c: ConnectionView,
    role: Role,
    event: EventView,
    data: Seq<u8>,
)
    requires
        connection::healthy(c),
    ensures
        connection::healthy(connection::sent(c, event).0),
        connection::healthy(connection::received(c).0),
        connection::healthy(connection::after_error(c, role)),
        connection::healthy(connection::next_cycle(c).0),
        connection::healthy(connection::fed(c, data).0),
{
    connection::lemma_after_error_healthy(c, role);
    connection::lemma_next_cycle_healthy(c);
    lemma_sending_keeps_healthy(c, event);
    lemma_receiving_keeps_healthy(c);
}

/// An error in the received data is the peer's, and it is final: from then on every call fails,
/// changes nothing, and says so, whatever data comes in between. Our own side does not fail by it.
pub proof fn law_receiving_fails_for_good(c: ConnectionView, data: Seq<u8>)
    requires
        connection::received(c).1 is Err,
    ensures
        connection::received(c).1->Err_0 is Remote,
        connection::received(c).0.their_state() == State::Error,
        connection::received(c).0.our_state() == State::Error ==> c.our_state() == State::Error,
        ({
            let later = connection::fed(connection::received(c).0, data).0;
            connection::received(later) == (
                later,
                Err::<EventView, ErrorView>(
                    ErrorView::Remote {
                        message: "Can't receive data when peer state is ERROR"@,
                        code: 400,
                    },
                ),
            )
        }),
{
}

proof fn lemma_normalize_error_is_local(pairs: Seq<(Seq<u8>, Seq<u8>)>, parsed: bool)
    ensures
        headers::normalize(pairs, parsed) matches Err(e) ==> e is Local,
    decreases pairs.len(),
{
    if pairs.len() > 0 {
        lemma_normalize_error_is_local(pairs.drop_last(), parsed);
    }
}

proof fn lemma_comma_error_is_local(fields: Seq<Field>, name: Seq<u8>, values: Seq<Seq<u8>>)
    ensures
        headers::with_comma_values(fields, name, values) matches Err(e) ==> e is Local,
{
    lemma_normalize_error_is_local(
        headers::without(headers::names_and_values(fields), name) + values.map_values(
            |v: Seq<u8>| (name, v),
        ),
        false,
    );
}

/// An error of `send` is ours.
pub proof fn law_sending_errors_are_local(c: ConnectionView, event: EventView)
    ensures
        connection::sent(c, event).1 matches Err(e) ==> e is Local,
{
    if let EventView::NormalResponse(response) = event {
        lemma_comma_error_is_local(response.headers, headers::content_length(), Seq::empty());
        if let Ok(fields) = headers::with_comma_values(
            response.headers,
            headers::content_length(),
            Seq::empty(),
        ) {
            lemma_comma_error_is_local(
                fields,
                headers::transfer_encoding(),
                if connection::peer_is_modern(c) {
                    seq!["chunked".spec_bytes()]
                } else {
                    Seq::empty()
                },
            );
        }
        if let Ok(fields) = connection::framed_fields(c, response) {
            lemma_comma_error_is_local(
                fields,
                "connection".spec_bytes(),
                connection::closing_items(
                    headers::comma_values(fields, "connection".spec_bytes()),
                ).push("close".spec_bytes()),
            );
        }
        assert(connection::cleaned(c, response) matches Err(e) ==> e is Local);
    }
    assert(connection::prepared(c, event) matches Err(e) ==> e is Local);
    if let Ok(event) = connection::prepared(c, event) {
        let (first, data) = connection::after_writing(c, event);
        assert(data matches Err(e) ==> e is Local);
        let r = connection::stepped(first.cstate, c.our_role, event).1;
        assert(r matches Err(e) ==> e is Local);
    }
}

/// After an error sending, whatever its cause, our side is in the error state, and from then on
/// every call fails, changes nothing, and says so. The same holds once `send_failed` was called.
pub proof fn law_sending_fails_for_good(c: ConnectionView, event: EventView, later: EventView)
    ensures
        connection::after_error(c, c.our_role).our_state() == State::Error,
        connection::sent(c, event).1 is Err ==> connection::sent(c, event).0.our_state()
            == State::Error,
        c.our_state() == State::Error ==> connection::sent(c, later) == (
            c,
            Err::<Option<Seq<u8>>, ErrorView>(
                ErrorView::Local {
                    message: "Can't send data when our state is ERROR"@,
                    code: 400,
                },
            ),
        ),
        connection::sent(c, event).1 is Err ==> {
            let failed = connection::sent(c, event).0;
            &&& connection::sent(failed, later).0 == failed
            &&& connection::sent(failed, later).1 matches Err(e) && e is Local
        },
{
}

/// More data is asked for only while the peer can send more, and while what it has sent is
/// within the limit.
pub proof fn law_incomplete_data_is_bounded(c: ConnectionView)
    requires
        connection::received(c).1 == Ok::<EventView, ErrorView>(EventView::NeedData),
    ensures
        connection::received(c).0.buffer.len() <= c.max_incomplete_event_size,
        !c.closed,
{
    let (first, r) = connection::extracted(c);
    if let Ok(event) = r {
        if connection::is_news(event) {
            assert(connection::accepted(first, event).1 is Ok ==> connection::accepted(
                first,
                event,
            ).1->Ok_0 == event);
        }
    }
}

/// Data of the next message waits: the connection is paused, nothing changes, and more data
/// does not help.
pub proof fn law_pause_keeps_the_data(c: ConnectionView, data: Seq<u8>)
    requires
        connection::is_paused(c),
        c.their_state() != State::Error,
    ensures
        connection::received(c) == (c, Ok::<EventView, ErrorView>(EventView::Paused)),
        connection::is_paused(connection::fed(c, data).0),
{
}

/// Where data waits because both sides are done, a new cycle makes it readable: the buffer is
/// kept, and the connection is as a fresh one that has received it.
pub proof fn law_next_cycle_resumes(c: ConnectionView, size: usize)
    requires
        connection::healthy(c),
        c.max_incomplete_event_size == size,
        c.cstate.states.client == State::Done,
        c.cstate.states.server == State::Done,
    ensures
        connection::next_cycle(c).1 is Ok,
        connection::next_cycle(c).0 == (ConnectionView {
            buffer: c.buffer,
            closed: c.closed,
            ..connection::fresh(c.our_role, Some(size))
        }),
{
}

/// A connection that has closed can be closed again; nothing changes.
pub proof fn law_sending_closed_twice(c: ConnectionView)
    requires
        state::settled(c.cstate) == c.cstate,
        c.our_state() == State::Closed,
    ensures
        connection::sent(c, EventView::ConnectionClosed) == (
            c,
            Ok::<Option<Seq<u8>>, ErrorView>(None),
        ),
{
    law_closing_twice_is_closing_once(c.cstate, c.our_role);
}

/// The end of the peer's data is reported as often as one asks.
pub proof fn law_receiving_closed_twice(c: ConnectionView)
    requires
        state::settled(c.cstate) == c.cstate,
        c.their_state() == State::Closed,
        c.reader == Some(readers::ReaderView::Closed),
        c.buffer.len() == 0,
        c.closed,
    ensures
        connection::received(c) == (
            c,
            Ok::<EventView, ErrorView>(EventView::ConnectionClosed),
        ),
{
    law_closing_twice_is_closing_once(c.cstate, c.their_role());
    assert(c.buffer =~= Seq::<u8>::empty());
}

/// A response to `HEAD` is framed by the same fields as a response to `GET`.
pub proof fn law_head_is_framed_like_get(c: ConnectionView, response: ResponseView)
    ensures
        connection::framed_fields(
            ConnectionView { request_method: Some("HEAD".spec_bytes()), ..c },
            response,
        ) == connection::framed_fields(
            ConnectionView { request_method: Some("GET".spec_bytes()), ..c },
            response,
        ),
{
}

/// A response to `HEAD` is made ready as a response to `GET` is: it gets the very same headers,
/// and its status, its version and its reason stay. The peer speaks HTTP/1.1, or else the
/// connection is not kept alive, as it never is with such a peer.
pub proof fn law_head_gets_the_headers_of_get(c: ConnectionView, response: ResponseView)
    requires
        connection::peer_is_modern(c) || !c.cstate.keep_alive,
    ensures
        ({
            let head = connection::cleaned(
                ConnectionView { request_method: Some("HEAD".spec_bytes()), ..c },
                response,
            );
            let get = connection::cleaned(
                ConnectionView { request_method: Some("GET".spec_bytes()), ..c },
                response,
            );
            &&& head == get
            &&& head matches Ok(ready) ==> ready == (ResponseView {
                headers: ready.headers,
                ..response
            })
        }),
{
    law_head_is_framed_like_get(c, response);
}

/// A peer that sends a request before HTTP/1.1 is not kept alive.
pub proof fn law_old_peers_are_not_kept_alive(c: ConnectionView, request: RequestView)
    requires
        c.our_role == Role::Server,
        connection::after_event(c, Role::Client, EventView::Request(request)).1 is Ok,
    ensures
        ({
            let after = connection::after_event(c, Role::Client, EventView::Request(request)).0;
            connection::peer_is_modern(after) || !after.cstate.keep_alive
        }),
{
}

/// Two servers that have received the same request, one with the method `HEAD` and one with the
/// method `GET`, make a response ready in the same way.
pub proof fn law_head_response_is_the_get_response(
    c: ConnectionView,
    request: RequestView,
    response: ResponseView,
)
    requires
        c.our_role == Role::Server,
        connection::after_event(
            c,
            Role::Client,
            EventView::Request(RequestView { method: "HEAD".spec_bytes(), ..request }),
        ).1 is Ok,
    ensures
        ({
            let head = RequestView { method: "HEAD".spec_bytes(), ..request };
            let get = RequestView { method: "GET".spec_bytes(), ..request };
            let (a, _) = connection::after_event(c, Role::Client, EventView::Request(head));
            let (b, r) = connection::after_event(c, Role::Client, EventView::Request(get));
            &&& r is Ok
            &&& connection::cleaned(a, response) == connection::cleaned(b, response)
        }),
{
    let head = RequestView { method: "HEAD".spec_bytes(), ..request };
    let get = RequestView { method: "GET".spec_bytes(), ..request };
    reveal_strlit("HEAD");
    reveal_strlit("GET");
    reveal_strlit("CONNECT");
    is_ascii_spec_bytes("HEAD");
    is_ascii_spec_bytes("GET");
    is_ascii_spec_bytes("CONNECT");
    assert(head.method != "CONNECT".spec_bytes());
    assert(get.method != "CONNECT".spec_bytes());
    let a = connection::after_event(c, Role::Client, EventView::Request(head)).0;
    let b = connection::after_event(c, Role::Client, EventView::Request(get)).0;
    law_old_peers_are_not_kept_alive(c, head);
    law_head_gets_the_headers_of_get(a, response);
    assert(a.request_method == Some("HEAD".spec_bytes()));
    assert(b.request_method == Some("GET".spec_bytes()));
    let like = ConnectionView { request_method: Some("GET".spec_bytes()), ..a };
    assert(connection::cleaned(like, response) == connection::cleaned(b, response));
}

/// A client that waits for an interim response waits no longer after any response, or once it
/// sends its body all the same.
pub proof fn law_waiting_ends(c: ConnectionView, event: EventView)
    requires
        connection::after_event(c, Role::Server, event).1 is Ok && (
        event is InformationalResponse || event is NormalResponse)
            || connection::after_event(c, Role::Client, event).1 is Ok && (event is Data
            || event is EndOfMessage),
    ensures
        event is InformationalResponse || event is NormalResponse
            ==> !connection::after_event(c, Role::Server, event).0.waiting_for_100_continue,
        event is Data || event is EndOfMessage
            ==> !connection::after_event(c, Role::Client, event).0.waiting_for_100_continue,
{
}

/// What a writer makes of the pieces of a body, one after the other, up to the first error.
pub open spec fn written_pieces(writer: writers::WriterView, pieces: Seq<Seq<u8>>) -> (
    writers::WriterView,
    Result<Seq<u8>, ErrorView>,
)
    decreases pieces.len(),
{
    if pieces.len() == 0 {
        (writer, Ok(Seq::empty()))
    } else {
        let (before, r) = written_pieces(writer, pieces.drop_last());
        match r {
            Ok(out) => {
                let (after, r) = writers::written_data(before, pieces.last());
                (
                    after,
                    match r {
                        Ok(data) => Ok(out + data),
                        Err(e) => Err(e),
                    },
                )
            },
            Err(e) => (before, Err(e)),
        }
    }
}

/// The pieces one after the other.
pub open spec fn joined(pieces: Seq<Seq<u8>>) -> Seq<u8>
    decreases pieces.len(),
{
    if pieces.len() == 0 {
        Seq::empty()
    } else {
        joined(pieces.drop_last()) + pieces.last()
    }
}

/// A body whose length was announced is sent as it is, as long as it is not longer, and it can
/// be ended exactly when it has that length.
pub proof fn law_announced_length_is_kept(length: int, pieces: Seq<Seq<u8>>)
    requires
        length >= 0,
    ensures
        ({
            let writer = writers::WriterView::ContentLength { length };
            let (after, r) = written_pieces(writer, pieces);
            &&& r is Ok <==> joined(pieces).len() <= length
            &&& r is Ok ==> r->Ok_0 == joined(pieces) && after
                == (writers::WriterView::ContentLength { length: length - joined(pieces).len() })
            &&& r is Ok ==> (writers::written_end(after, Seq::empty()) is Ok <==> joined(
                pieces,
            ).len() == length)
        }),
    decreases pieces.len(),
{
    if pieces.len() > 0 {
        law_announced_length_is_kept(length, pieces.drop_last());
    }
}

} // verus!
