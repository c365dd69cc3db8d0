//! What the head of a message means, said of its status, its method, its version and its fields:
//! the framing of the body that follows, whether the connection stays open, whether the client
//! waits, which switches are proposed, and what a connection remembers.
use vstd::prelude::*;
use vstd::string::*;

use crate::bytes;
use crate::bytes::COMMA;
use crate::connection;
use crate::connection::ConnectionView;
use crate::events::{EventView, RequestView, ResponseView};
use crate::framing;
use crate::framing::{Framing, HeadView};
use crate::header_laws;
use crate::headers;
use crate::headers::Field;
use crate::items;
use crate::readers::ReaderView;
use crate::state::{Proposals, Role, State, Switch};
use crate::text;
use crate::util::ErrorView;
use crate::writers::WriterView;

verus! {

/// The lengths that valid fields name are the one value of the one field.
pub proof fn lemma_lengths(fields: Seq<Field>)
    requires
        headers::valid_fields(fields),
    ensures
        headers::comma_values(fields, headers::content_length()).len() > 0 <==> items::has_field(
            fields,
            headers::content_length(),
        ),
        forall|i: int|
            0 <= i < fields.len() && (#[trigger] fields[i]).name == headers::content_length()
                ==> headers::comma_values(fields, headers::content_length()) == seq![
                fields[i].value,
            ],
    decreases fields.len(),
{
    if fields.len() > 0 {
        let name = headers::content_length();
        let front = fields.drop_last();
        let last = fields.last();
        let n = fields.len() - 1;
        assert forall|i: int| 0 <= i < front.len() implies #[trigger] front[i] == fields[i] by {}
        assert(fields[n] == last);
        assert(headers::valid_fields(front));
        lemma_lengths(front);
        if last.name == name {
            framing::lemma_number_list(last.value);
            if items::has_field(front, name) {
                let j = choose|j: int| 0 <= j < front.len() && (#[trigger] front[j]).name == name;
                assert(fields[j].name == name && fields[n].name == name);
            }
            assert(headers::comma_values(front, name) =~= Seq::<Seq<u8>>::empty());
            assert(headers::comma_values(fields, name) =~= seq![last.value]);
        } else {
            if items::has_field(front, name) {
                let j = choose|j: int| 0 <= j < front.len() && (#[trigger] front[j]).name == name;
                assert(fields[j].name == name);
            }
            if items::has_field(fields, name) {
                let j = choose|j: int| 0 <= j < fields.len() && (#[trigger] fields[j]).name == name;
                assert(front[j].name == name);
            }
            assert forall|i: int|
                0 <= i < fields.len() && (#[trigger] fields[i]).name
                    == name implies headers::comma_values(fields, name) == seq![
                fields[i].value,
            ] by {
                assert(front[i].name == name);
            }
        }
    }
}

/// A response to `HEAD`, one with a status which means that nothing follows, and one with which a
/// tunnel starts, has no body, whatever its fields are.
pub proof fn law_nothing_follows(method: Seq<u8>, response: ResponseView)
    requires
        method == "HEAD".spec_bytes() || response.status_code == 204 || response.status_code == 304
            || (method == "CONNECT".spec_bytes() && response.status_code / 100 == 2),
    ensures
        framing::framing(method, HeadView::Response(response)) == Framing::ContentLength(0),
        framing::has_framing(method, HeadView::Response(response)),
{
}

/// An interim response has no framing of its own, unless nothing could follow in any case.
pub proof fn law_interim_responses_frame_nothing(method: Seq<u8>, response: ResponseView)
    requires
        response.status_code < 200,
        method != "HEAD".spec_bytes(),
    ensures
        !framing::has_framing(method, HeadView::Response(response)),
{
}

/// Any other final response, and any request, is framed by its fields. With a transfer
/// coding the body comes in chunks. Otherwise a length says how long it is, exactly. With neither a
/// request has no body, and a response lasts until the connection is closed. There is such a
/// framing unless the length that counts is more than a machine integer holds.
pub proof fn law_fields_frame_the_body(method: Seq<u8>, head: HeadView, i: int)
    requires
        headers::valid_fields(head.headers()),
        head matches HeadView::Response(response) ==> {
            &&& response.status_code >= 200
            &&& response.status_code != 204 && response.status_code != 304
            &&& method != "HEAD".spec_bytes()
            &&& method == "CONNECT".spec_bytes() ==> response.status_code >= 300
        },
    ensures
        ({
            let fields = head.headers();
            let coded = items::has_field(fields, headers::transfer_encoding());
            let measured = items::has_field(fields, headers::content_length());
            let length = bytes::digits_value(fields[i].value, 10);
            let is_length = 0 <= i < fields.len() && fields[i].name == headers::content_length();
            &&& coded ==> framing::framing(method, head) == Framing::Chunked
            &&& !coded && is_length && length <= isize::MAX ==> framing::framing(method, head)
                == Framing::ContentLength(length as isize)
            &&& !coded && !measured ==> framing::framing(method, head) == (match head {
                HeadView::Request(_) => Framing::ContentLength(0),
                HeadView::Response(_) => Framing::Http10,
            })
            &&& coded || !measured || (is_length && length <= isize::MAX) ==> framing::has_framing(
                method,
                head,
            )
            &&& !coded && is_length && length > isize::MAX ==> !framing::has_framing(method, head)
        }),
{
    let fields = head.headers();
    header_laws::law_only_coding_is_chunked(fields);
    lemma_lengths(fields);
    if 0 <= i < fields.len() && fields[i].name == headers::content_length() {
        assert(headers::comma_values(fields, headers::content_length()) == seq![fields[i].value]);
    }
}

/// A connection stays open after a message exactly if the message is not before HTTP/1.1 and none
/// of its `Connection` fields lists `close`. What else they list makes no difference.
pub proof fn law_what_keeps_a_connection(head: HeadView)
    ensures
        framing::keeps_alive(head) <==> !items::comes_before(
            head.http_version(),
            "1.1".spec_bytes(),
        ) && !items::names(
            head.headers(),
            "connection".spec_bytes(),
            "close".spec_bytes(),
        ),
{
    reveal_strlit("close");
    is_ascii_spec_bytes("close");
    items::law_items(head.headers(), "connection".spec_bytes(), "close".spec_bytes());
    items::law_order(head.http_version(), "1.1".spec_bytes());
}

/// A request asks for an interim response exactly if it is not before HTTP/1.1 and one of its
/// `Expect` fields lists `100-continue`. Its other fields make no difference.
pub proof fn law_what_expects_continue(request: RequestView)
    ensures
        headers::expects_100_continue(
            request.http_version,
            request.headers,
        ) <==> !items::comes_before(request.http_version, "1.1".spec_bytes()) && items::names(
            request.headers,
            "expect".spec_bytes(),
            "100-continue".spec_bytes(),
        ),
{
    reveal_strlit("100-continue");
    is_ascii_spec_bytes("100-continue");
    items::law_items(request.headers, "expect".spec_bytes(), "100-continue".spec_bytes());
    items::law_order(request.http_version, "1.1".spec_bytes());
}

/// An event that is allowed turns keep-alive off exactly if it is a head, and one that is before
/// HTTP/1.1 or lists `close`. Nothing turns it on.
pub proof fn law_keep_alive_after_an_event(c: ConnectionView, role: Role, event: EventView)
    requires
        connection::after_event(c, role, event).1 is Ok,
    ensures
        ({
            let ends = |fields: Seq<Field>, http_version: Seq<u8>|
                items::comes_before(http_version, "1.1".spec_bytes()) || items::names(
                    fields,
                    "connection".spec_bytes(),
                    "close".spec_bytes(),
                );
            connection::after_event(c, role, event).0.cstate.keep_alive == (c.cstate.keep_alive
                && !(match event {
                EventView::Request(request) => ends(request.headers, request.http_version),
                EventView::NormalResponse(response) => ends(
                    response.headers,
                    response.http_version,
                ),
                _ => false,
            }))
        }),
{
    if framing::is_head(event) {
        law_what_keeps_a_connection(framing::head_of(event));
    }
}

/// The client waits for an interim response after a request that asks for one, until a response
/// comes or it goes on with the body. Nothing else starts or ends the wait.
pub proof fn law_when_the_client_waits(c: ConnectionView, role: Role, event: EventView)
    requires
        connection::after_event(c, role, event).1 is Ok,
    ensures
        connection::after_event(c, role, event).0.waiting_for_100_continue == (match event {
            EventView::Request(request) => c.waiting_for_100_continue || (!items::comes_before(
                request.http_version,
                "1.1".spec_bytes(),
            ) && items::names(
                request.headers,
                "expect".spec_bytes(),
                "100-continue".spec_bytes(),
            )),
            EventView::InformationalResponse(_) => false,
            EventView::NormalResponse(_) => false,
            EventView::Data(_) => role == Role::Server && c.waiting_for_100_continue,
            EventView::EndOfMessage(_) => role == Role::Server && c.waiting_for_100_continue,
            _ => c.waiting_for_100_continue,
        }),
{
    if let EventView::Request(request) = event {
        law_what_expects_continue(request);
    }
}

/// An accepted request proposes an upgrade exactly if it has an `Upgrade` field that lists
/// something, and a tunnel exactly if its method is `CONNECT`. What was proposed before stays
/// proposed.
pub proof fn law_what_a_request_proposes(c: ConnectionView, request: RequestView)
    requires
        connection::after_event(c, Role::Client, EventView::Request(request)).1 is Ok,
    ensures
        ({
            let before = c.cstate.pending_switch_proposals;
            let after = connection::after_event(
                c,
                Role::Client,
                EventView::Request(request),
            ).0.cstate.pending_switch_proposals;
            &&& after.has(Switch::SwitchUpgrade) <==> before.has(Switch::SwitchUpgrade)
                || (exists|item: Seq<u8>|
                item.len() > 0 && #[trigger] items::names(
                    request.headers,
                    "upgrade".spec_bytes(),
                    item,
                ))
            &&& after.has(Switch::SwitchConnect) <==> before.has(Switch::SwitchConnect)
                || request.method == "CONNECT".spec_bytes()
            &&& after.has(Switch::Client) == before.has(Switch::Client)
        }),
{
    items::law_some_items(request.headers, "upgrade".spec_bytes());
}

/// A field whose value is one word lists that word, and a name without fields lists nothing.
proof fn lemma_one_word(fields: Seq<Field>, name: Seq<u8>, i: int, word: Seq<u8>)
    requires
        word.len() > 0,
        forall|k: int|
            0 <= k < word.len() ==> 0x21 <= #[trigger] word[k] <= 0x7e && word[k] != COMMA,
        bytes::lowercase(fields[i].value) == word,
        0 <= i < fields.len(),
        fields[i].name == name,
    ensures
        items::names(fields, name, word),
{
    let value = fields[i].value;
    let none = Seq::<u8>::empty();
    assert(value.len() == word.len());
    assert forall|k: int| 0 <= k < value.len() implies 0x21 <= #[trigger] value[k] <= 0x7e
        && value[k] != COMMA by {
        assert(word[k] == bytes::lower(value[k]));
    }
    items::law_a_word_is_listed(none, value, none);
    assert(none + value + none =~= value);
}

/// After a request of HTTP/1.1 or later with the field `Expect: 100-continue`, in capitals or not,
/// the client waits, whatever the other fields are; after one without an `Expect` field it does not,
/// unless it did.
pub proof fn law_expect_fields(c: ConnectionView, request: RequestView, i: int)
    requires
        connection::after_event(c, Role::Client, EventView::Request(request)).1 is Ok,
        !items::comes_before(request.http_version, "1.1".spec_bytes()),
    ensures
        ({
            let after = connection::after_event(c, Role::Client, EventView::Request(request)).0;
            let fields = request.headers;
            &&& 0 <= i < fields.len() && fields[i].name == "expect".spec_bytes()
                && bytes::lowercase(fields[i].value) == "100-continue".spec_bytes()
                ==> after.waiting_for_100_continue
            &&& !items::has_field(fields, "expect".spec_bytes()) ==> after.waiting_for_100_continue
                == c.waiting_for_100_continue
        }),
{
    let fields = request.headers;
    law_when_the_client_waits(c, Role::Client, EventView::Request(request));
    reveal_strlit("100-continue");
    is_ascii_spec_bytes("100-continue");
    if 0 <= i < fields.len() && fields[i].name == "expect".spec_bytes() && bytes::lowercase(
        fields[i].value,
    ) == "100-continue".spec_bytes() {
        lemma_one_word(fields, "expect".spec_bytes(), i, "100-continue".spec_bytes());
    }
}

/// After a message with the field `Connection: close`, in capitals or not, a connection is not kept
/// alive; after one of HTTP/1.1 or later without a `Connection` field, or with `Connection:
/// keep-alive` as the only one, it is.
pub proof fn law_connection_fields(head: HeadView, i: int)
    ensures
        ({
            let fields = head.headers();
            let con = "connection".spec_bytes();
            let modern = !items::comes_before(head.http_version(), "1.1".spec_bytes());
            let here = 0 <= i < fields.len() && fields[i].name == con;
            let alone = forall|j: int|
                0 <= j < fields.len() && j != i ==> (#[trigger] fields[j]).name != con;
            &&& here && bytes::lowercase(fields[i].value) == "close".spec_bytes()
                ==> !framing::keeps_alive(head)
            &&& modern && !items::has_field(fields, con) ==> framing::keeps_alive(head)
            &&& modern && here && alone && bytes::lowercase(fields[i].value)
                == "keep-alive".spec_bytes() ==> framing::keeps_alive(head)
            &&& !modern ==> !framing::keeps_alive(head)
        }),
{
    let fields = head.headers();
    let con = "connection".spec_bytes();
    let close = "close".spec_bytes();
    let keep = "keep-alive".spec_bytes();
    law_what_keeps_a_connection(head);
    reveal_strlit("close");
    is_ascii_spec_bytes("close");
    reveal_strlit("keep-alive");
    is_ascii_spec_bytes("keep-alive");
    if 0 <= i < fields.len() && fields[i].name == con {
        if bytes::lowercase(fields[i].value) == close {
            lemma_one_word(fields, con, i, close);
        }
        if bytes::lowercase(fields[i].value) == keep {
            let n = keep.len() as int;
            assert(n == 10 && close.len() == 5);
            assert(!items::lists(fields[i].value, close)) by {
                if items::lists(fields[i].value, close) {
                    let (a, b) = choose|a: int, b: int| #[trigger]
                        items::between(keep, COMMA, a, b) && text::trim(keep.subrange(a, b))
                            == close;
                    if a > 0 {
                        assert(keep[a - 1] == COMMA);
                    }
                    if b < n {
                        assert(keep[b] == COMMA);
                    }
                    assert(keep.subrange(a, b) =~= keep);
                    text::lemma_trim_solid(keep);
                }
            }
        }
    }
}

/// After a request with an `Upgrade` field of one word an upgrade is proposed; after one without an
/// `Upgrade` field only if it was.
pub proof fn law_upgrade_fields(c: ConnectionView, request: RequestView, i: int)
    requires
        connection::after_event(c, Role::Client, EventView::Request(request)).1 is Ok,
    ensures
        ({
            let before = c.cstate.pending_switch_proposals;
            let after = connection::after_event(
                c,
                Role::Client,
                EventView::Request(request),
            ).0.cstate.pending_switch_proposals;
            let fields = request.headers;
            let name = "upgrade".spec_bytes();
            &&& 0 <= i < fields.len() && fields[i].name == name && fields[i].value.len() > 0 && (
            forall|k: int|
                0 <= k < fields[i].value.len() ==> 0x21 <= #[trigger] fields[i].value[k] <= 0x7e
                    && fields[i].value[k] != COMMA) ==> after.upgrade
            &&& !items::has_field(fields, name) ==> after.upgrade == before.upgrade
        }),
{
    items::law_words_are_found(request.headers, "upgrade".spec_bytes(), i);
}

/// A final response answers all proposals: unless it is the success that a proposed tunnel waits
/// for, nothing is proposed after it. Other events leave the proposals.
pub proof fn law_what_answers_proposals(c: ConnectionView, role: Role, event: EventView)
    requires
        connection::after_event(c, role, event).1 is Ok,
        !(event is Request),
    ensures
        ({
            let before = c.cstate.pending_switch_proposals;
            let after = connection::after_event(c, role, event).0.cstate.pending_switch_proposals;
            after == (match event {
                EventView::NormalResponse(response) => if before.has(Switch::SwitchConnect)
                    && response.status_code / 100 == 2 {
                    before
                } else {
                    Proposals::nothing()
                },
                _ => before,
            })
        }),
{
}

/// The server switches protocols with an interim response of status 101, which is allowed only if
/// an upgrade is proposed, or with a success to a proposed tunnel; with no other event.
#[verifier::rlimit(60)]
#[verifier::spinoff_prover]
pub proof fn law_what_switches(c: ConnectionView, role: Role, event: EventView)
    requires
        c.cstate.states.server != State::SwitchedProtocol,
        connection::after_event(c, role, event).1 is Ok,
    ensures
        ({
            let before = c.cstate.pending_switch_proposals;
            let after = connection::after_event(c, role, event).0.cstate.states.server;
            &&& after == State::SwitchedProtocol <==> (match event {
                EventView::InformationalResponse(response) => response.status_code == 101,
                EventView::NormalResponse(response) => before.has(Switch::SwitchConnect)
                    && response.status_code / 100 == 2,
                _ => false,
            })
            &&& event matches EventView::InformationalResponse(response) ==> (response.status_code
                == 101 ==> before.has(Switch::SwitchUpgrade))
        }),
{
}

/// A connection remembers the method of the last request, whoever sent it, and the version in
/// the last head that the peer sent; an event that is allowed changes nothing else of what it is.
pub proof fn law_what_is_remembered(c: ConnectionView, role: Role, event: EventView)
    requires
        connection::after_event(c, role, event).1 is Ok,
    ensures
        ({
            let after = connection::after_event(c, role, event).0;
            let theirs = role != c.our_role;
            &&& after.request_method == (match event {
                EventView::Request(request) => Some(request.method),
                _ => c.request_method,
            })
            &&& after.their_http_version == (match event {
                EventView::Request(request) if theirs => Some(request.http_version),
                EventView::NormalResponse(response) if theirs => Some(response.http_version),
                EventView::InformationalResponse(response) if theirs => Some(
                    response.http_version,
                ),
                _ => c.their_http_version,
            })
            &&& after.our_role == c.our_role
            &&& after.buffer == c.buffer
            &&& after.closed == c.closed
            &&& after.max_incomplete_event_size == c.max_incomplete_event_size
        }),
{
}

/// Where a side starts a body with a head of its own, the body is written, or read, in the framing
/// of that head: of a request by its own method, of a response by the method of the request that
/// it answers.
pub proof fn law_body_follows_its_head(c: ConnectionView, role: Role, event: EventView)
    requires
        connection::healthy(c),
        event is Request || event is NormalResponse,
        connection::after_event(c, role, event).1 is Ok,
        connection::after_event(c, role, event).0.cstate.states.at(role) == State::SendBody,
    ensures
        ({
            let after = connection::after_event(c, role, event).0;
            let framing = match event {
                EventView::Request(request) => framing::framing(
                    request.method,
                    HeadView::Request(request),
                ),
                EventView::NormalResponse(response) => framing::framing(
                    match c.request_method {
                        Some(method) => method,
                        None => Seq::empty(),
                    },
                    HeadView::Response(response),
                ),
                _ => Framing::Chunked,
            };
            match framing {
                Framing::ContentLength(length) => if role == c.our_role {
                    after.writer == Some(WriterView::ContentLength { length: length as int })
                } else {
                    after.reader == Some(
                        ReaderView::ContentLength {
                            length: length as nat,
                            remaining: length as nat,
                        },
                    )
                },
                Framing::Chunked => if role == c.our_role {
                    after.writer == Some(WriterView::Chunked)
                } else {
                    after.reader == Some(
                        ReaderView::Chunked {
                            bytes_in_chunk: 0,
                            bytes_to_discard: 0,
                            reading_trailer: false,
                        },
                    )
                },
                Framing::Http10 => if role == c.our_role {
                    after.writer == Some(WriterView::Http10)
                } else {
                    after.reader == Some(ReaderView::Http10)
                },
            }
        }),
{
    connection::lemma_noted_sane(c.cstate, role, event);
}

/// A side that comes to a new state with an event writes, and is read, as this state has it: a
/// server that must respond writes a response; a side that is done, or that has closed, writes
/// nothing, and all that could come from it is the end.
pub proof fn law_what_a_state_brings(c: ConnectionView, role: Role, event: EventView)
    requires
        connection::after_event(c, role, event).1 is Ok,
    ensures
        ({
            let after = connection::after_event(c, role, event).0;
            let ours = after.our_state();
            let theirs = after.their_state();
            &&& ours == c.our_state() ==> after.writer == c.writer
            &&& theirs == c.their_state() ==> after.reader == c.reader
            &&& ours != c.our_state() && ours == State::SendResponse && c.our_role == Role::Server
                ==> after.writer == Some(WriterView::Response)
            &&& ours != c.our_state() && (ours == State::Done || ours == State::MustClose || ours
                == State::Closed || ours == State::MightSwitchProtocol || ours
                == State::SwitchedProtocol) ==> after.writer is None
            &&& theirs != c.their_state() && theirs == State::SendResponse && c.our_role
                == Role::Client ==> after.reader == Some(ReaderView::SendResponseServer)
            &&& theirs != c.their_state() && (theirs == State::Done || theirs == State::MustClose
                || theirs == State::Closed) ==> after.reader == Some(ReaderView::Closed)
        }),
{
}

/// An error of a side ends what it sends and what is read of it; the other side goes on, but has to
/// close if it is done. Data that was received stays.
pub proof fn law_failing(c: ConnectionView, role: Role)
    requires
        connection::healthy(c),
        c.cstate.states.at(role) != State::Error,
    ensures
        ({
            let after = connection::after_error(c, role);
            let other = c.cstate.states.at(connection::other(role));
            &&& after.cstate.states.at(role) == State::Error
            &&& after.cstate.states.at(connection::other(role)) == (if other == State::Done {
                State::MustClose
            } else {
                other
            })
            &&& role == c.our_role ==> {
                &&& after.writer is None
                &&& other != State::Done ==> after.reader == c.reader
                &&& other == State::Done ==> after.reader == Some(ReaderView::Closed)
            }
            &&& role != c.our_role ==> {
                &&& after.reader is None
                &&& other != State::Done ==> after.writer == c.writer
                &&& other == State::Done ==> after.writer is None
            }
            &&& after.our_role == c.our_role
            &&& after.buffer == c.buffer
            &&& after.closed == c.closed
            &&& after.request_method == c.request_method
            &&& after.their_http_version == c.their_http_version
            &&& after.waiting_for_100_continue == c.waiting_for_100_continue
            &&& after.max_incomplete_event_size == c.max_incomplete_event_size
        }),
{
}

/// A side can close between messages: nothing is written, and it is closed then. At other times
/// closing is our error.
pub proof fn law_sending_the_end(c: ConnectionView)
    requires
        connection::healthy(c),
    ensures
        ({
            let (after, r) = connection::sent(c, EventView::ConnectionClosed);
            let own = c.our_state();
            if own == State::Idle || own == State::Done || own == State::MustClose || own
                == State::Closed {
                &&& r == Ok::<Option<Seq<u8>>, ErrorView>(None)
                &&& after.our_state() == State::Closed
            } else {
                r is Err
            }
        }),
{
}

/// A fresh connection waits for a request on both sides: the client writes one, the server can
/// answer, and the other side is read accordingly. Unless it is told otherwise it takes 16384
/// bytes of a head that is not whole.
pub proof fn law_fresh_connections(role: Role, size: usize)
    ensures
        ({
            let c = connection::fresh(role, Some(size));
            &&& c.our_role == role
            &&& c.their_role() != role
            &&& c.our_state() == State::Idle && c.their_state() == State::Idle
            &&& c.cstate.keep_alive
            &&& forall|switch: Switch| !#[trigger] c.cstate.pending_switch_proposals.has(switch)
            &&& c.writer == Some(
                if role == Role::Client {
                    WriterView::Request
                } else {
                    WriterView::Response
                },
            )
            &&& c.reader == Some(
                if role == Role::Client {
                    ReaderView::SendResponseServer
                } else {
                    ReaderView::IdleClient
                },
            )
            &&& c.max_incomplete_event_size == size
            &&& c.buffer.len() == 0 && !c.closed
            &&& c.their_http_version is None && c.request_method is None
            &&& !c.waiting_for_100_continue
            &&& connection::fresh(role, None) == connection::fresh(role, Some(16384))
        }),
{
}

} // verus!
