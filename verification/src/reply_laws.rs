//! How a response is made ready to be sent, said of its status and its fields, of the request that
//! it answers and of the peer: which fields stay, which are set, and when the connection is said to
//! end.
use vstd::prelude::*;
use vstd::string::*;

use crate::bytes;
use crate::connection;
use crate::connection::ConnectionView;
use crate::events::{EventView, ResponseView};
use crate::framing;
use crate::framing::HeadView;
use crate::head_laws;
use crate::header_laws;
use crate::headers;
use crate::headers::Field;
use crate::items;
use crate::roundtrip;
use crate::state::{Role, State};
use crate::success;
use crate::util::ErrorView;
use crate::writers;
use crate::writers::WriterView;

verus! {

/// Whether the length of a response to a request of a method is known from its head: nothing
/// follows, or a length is named and no transfer coding. To `HEAD` it is as to `GET`.
spec fn announces_length(method: Seq<u8>, response: ResponseView) -> bool {
    ||| response.status_code == 204
    ||| response.status_code == 304
    ||| method == "CONNECT".spec_bytes() && response.status_code / 100 == 2
    ||| items::has_field(response.headers, headers::content_length()) && !items::has_field(
        response.headers,
        headers::transfer_encoding(),
    )
}

/// Whether the peer has sent a head of HTTP/1.1 or later.
spec fn knows_chunks(c: ConnectionView) -> bool {
    c.their_http_version is Some && !items::comes_before(
        c.their_http_version->0,
        "1.1".spec_bytes(),
    )
}

/// Whether a response is the last: the connection is not kept alive, or only its end can end the
/// body.
spec fn is_the_last(c: ConnectionView, response: ResponseView) -> bool {
    ||| !c.cstate.keep_alive
    ||| !announces_length(c.method(), response) && !knows_chunks(c) && c.method()
        != "HEAD".spec_bytes()
}

/// The values of the fields of a name, in order.
pub open spec fn values_of(fields: Seq<Field>, name: Seq<u8>) -> Seq<Seq<u8>>
    decreases fields.len(),
{
    if fields.len() == 0 {
        Seq::empty()
    } else if fields.last().name == name {
        values_of(fields.drop_last(), name).push(fields.last().value)
    } else {
        values_of(fields.drop_last(), name)
    }
}

/// Whether a field has to do with framing or with the connection.
pub open spec fn is_managed(name: Seq<u8>) -> bool {
    name == headers::content_length() || name == headers::transfer_encoding() || name
        == "connection".spec_bytes()
}

/// The names and values of the fields that have to do with neither, in order.
pub open spec fn the_rest(fields: Seq<Field>) -> Seq<(Seq<u8>, Seq<u8>)>
    decreases fields.len(),
{
    if fields.len() == 0 {
        Seq::empty()
    } else if is_managed(fields.last().name) {
        the_rest(fields.drop_last())
    } else {
        the_rest(fields.drop_last()).push((fields.last().name, fields.last().value))
    }
}

proof fn lemma_methods()
    ensures
        "HEAD".spec_bytes().len() == 4,
        "GET".spec_bytes().len() == 3,
        "CONNECT".spec_bytes().len() == 7,
{
    reveal_strlit("HEAD");
    reveal_strlit("GET");
    reveal_strlit("CONNECT");
    is_ascii_spec_bytes("HEAD");
    is_ascii_spec_bytes("GET");
    is_ascii_spec_bytes("CONNECT");
}

proof fn lemma_open_ended(c: ConnectionView, response: ResponseView)
    requires
        headers::valid_fields(response.headers),
    ensures
        connection::is_open_ended(c, response) <==> !announces_length(c.method(), response),
        connection::peer_is_modern(c) <==> knows_chunks(c),
        connection::will_close(c, response) <==> is_the_last(c, response),
{
    lemma_methods();
    header_laws::law_only_coding_is_chunked(response.headers);
    head_laws::lemma_lengths(response.headers);
    if let Some(version) = c.their_http_version {
        items::law_order(version, "1.1".spec_bytes());
    }
}

/// On a connection that is kept alive a response of known length is sent just as it was given: one
/// that names a length, and no transfer coding, or one that nothing follows.
pub proof fn law_known_length_is_left_alone(c: ConnectionView, response: ResponseView)
    requires
        headers::valid_fields(response.headers),
        c.cstate.keep_alive,
        ({
            ||| items::has_field(response.headers, headers::content_length()) && !items::has_field(
                response.headers,
                headers::transfer_encoding(),
            )
            ||| response.status_code == 204
            ||| response.status_code == 304
            ||| c.request_method == Some("CONNECT".spec_bytes()) && response.status_code / 100 == 2
        }),
    ensures
        connection::cleaned(c, response) == Ok::<ResponseView, ErrorView>(response),
{
    lemma_methods();
    lemma_open_ended(c, response);
}

proof fn lemma_replaced(fields: Seq<Field>, name: Seq<u8>, values: Seq<Seq<u8>>, other: Seq<u8>)
    ensures
        ({
            let after = header_laws::kept(fields, name) + header_laws::fresh_fields(name, values);
            &&& values_of(after, name) == values
            &&& other != name ==> values_of(after, other) == values_of(fields, other)
            &&& is_managed(name) ==> the_rest(after) == the_rest(fields)
        }),
    decreases values.len(), fields.len(),
{
    let kept = header_laws::kept(fields, name);
    let added = header_laws::fresh_fields(name, values);
    let after = kept + added;
    if values.len() > 0 {
        let front = values.drop_last();
        lemma_replaced(fields, name, front, other);
        assert(added.drop_last() =~= header_laws::fresh_fields(name, front));
        assert(after.drop_last() =~= kept + header_laws::fresh_fields(name, front));
        assert(front.push(values.last()) =~= values);
    } else {
        assert(after =~= kept);
        assert(values =~= Seq::<Seq<u8>>::empty());
        if fields.len() > 0 {
            let before = fields.drop_last();
            lemma_replaced(before, name, values, other);
            assert(header_laws::kept(before, name) + header_laws::fresh_fields(name, values)
                =~= header_laws::kept(before, name));
            if fields.last().name != name {
                assert(kept.drop_last() =~= header_laws::kept(before, name));
            }
        }
    }
}

proof fn lemma_closing_items(list: Seq<Seq<u8>>)
    ensures
        connection::closing_items(list).no_duplicates(),
        forall|item: Seq<u8>| #[trigger]
            connection::closing_items(list).contains(item) <==> list.contains(item) && item
                != "keep-alive".spec_bytes() && item != "close".spec_bytes(),
    decreases list.len(),
{
    let all = connection::closing_items(list);
    if list.len() > 0 {
        let front = list.drop_last();
        let before = connection::closing_items(front);
        lemma_closing_items(front);
        assert forall|item: Seq<u8>| #[trigger]
            all.contains(item) <==> list.contains(item) && item != "keep-alive".spec_bytes()
                && item != "close".spec_bytes() by {
            assert(list.contains(item) <==> front.contains(item) || item == list.last()) by {
                if list.contains(item) {
                    let i = list.index_of(item);
                    if i < front.len() {
                        assert(front[i] == item);
                    }
                }
                if front.contains(item) {
                    assert(list[front.index_of(item)] == item);
                }
                assert(list[list.len() - 1] == list.last());
            }
            assert(before.contains(item) <==> front.contains(item) && item
                != "keep-alive".spec_bytes() && item != "close".spec_bytes());
            if all.contains(item) {
                let i = all.index_of(item);
                if i < before.len() {
                    assert(before[i] == item);
                }
            }
            if before.contains(item) {
                assert(all[before.index_of(item)] == item);
            }
            if all.len() > before.len() {
                assert(all[before.len() as int] == list.last());
            }
        }
    }
}

/// The fields of a response as it is sent. Those that have to do neither with framing nor with the
/// connection stay, in order. So do those of framing where the length is known; where it is not
/// there is no length, and the body comes in chunks if the peer knows these. The `Connection`
/// fields stay as they were unless the response is the last. Then they are `close`, once, and
/// otherwise, each once, what they listed, but not `keep-alive`.
pub proof fn law_fields_of_replies(c: ConnectionView, response: ResponseView, item: Seq<u8>)
    requires
        headers::valid_fields(response.headers),
        connection::cleaned(c, response) is Ok,
    ensures
        ({
            let ready = connection::cleaned(c, response)->Ok_0;
            let known = response.status_code == 204 || response.status_code == 304 || (
            c.request_method == Some("CONNECT".spec_bytes()) && response.status_code / 100 == 2) || (
            items::has_field(response.headers, headers::content_length()) && !items::has_field(
                response.headers,
                headers::transfer_encoding(),
            ));
            let chunks = c.their_http_version matches Some(version) && !items::comes_before(
                version,
                "1.1".spec_bytes(),
            );
            let last = !c.cstate.keep_alive || (!known && !chunks && c.request_method != Some(
                "HEAD".spec_bytes(),
            ));
            let lengths = values_of(ready.headers, headers::content_length());
            let codings = values_of(ready.headers, headers::transfer_encoding());
            let con = "connection".spec_bytes();
            let close = "close".spec_bytes();
            let options = values_of(ready.headers, con);
            &&& ready.status_code == response.status_code
            &&& ready.reason == response.reason
            &&& ready.http_version == response.http_version
            &&& the_rest(ready.headers) == the_rest(response.headers)
            &&& known ==> {
                &&& lengths == values_of(response.headers, headers::content_length())
                &&& codings == values_of(response.headers, headers::transfer_encoding())
            }
            &&& !known ==> {
                &&& lengths.len() == 0
                &&& codings == (if chunks {
                    seq!["chunked".spec_bytes()]
                } else {
                    Seq::empty()
                })
            }
            &&& !last ==> options == values_of(response.headers, con)
            &&& last ==> {
                &&& options.no_duplicates()
                &&& options.contains(item) <==> item == close || (item.len() > 0 && items::names(
                    response.headers,
                    con,
                    item,
                ) && item != "keep-alive".spec_bytes())
            }
        }),
{
    let cl = headers::content_length();
    let te = headers::transfer_encoding();
    let con = "connection".spec_bytes();
    let close = "close".spec_bytes();
    let none = Seq::<Seq<u8>>::empty();
    lemma_methods();
    lemma_open_ended(c, response);
    headers::lemma_lower_literals();
    header_laws::lemma_names();
    let framed = connection::framed_fields(c, response)->Ok_0;
    if connection::is_open_ended(c, response) {
        let first = headers::with_comma_values(response.headers, cl, none)->Ok_0;
        let codings = if connection::peer_is_modern(c) {
            seq!["chunked".spec_bytes()]
        } else {
            none
        };
        header_laws::law_replaced_fields(response.headers, cl, none);
        header_laws::law_set_then_get(response.headers, cl, none, con);
        lemma_replaced(response.headers, cl, none, te);
        lemma_replaced(response.headers, cl, none, con);
        header_laws::law_replaced_fields(first, te, codings);
        header_laws::law_set_then_get(first, te, codings, con);
        lemma_replaced(first, te, codings, cl);
        lemma_replaced(first, te, codings, con);
    }
    assert(headers::comma_values(framed, con) == headers::comma_values(response.headers, con));
    items::law_items(response.headers, con, item);
    if connection::will_close(c, response) {
        let list = connection::closing_items(headers::comma_values(framed, con));
        let options = list.push(close);
        header_laws::law_replaced_fields(framed, con, options);
        lemma_replaced(framed, con, options, cl);
        lemma_replaced(framed, con, options, te);
        lemma_closing_items(headers::comma_values(framed, con));
        assert(!list.contains(close));
        assert(options.no_duplicates()) by {
            assert forall|i: int, j: int|
                0 <= i < options.len() && 0 <= j < options.len() && i != j implies options[i]
                != options[j] by {
                if i < list.len() {
                    assert(list.contains(list[i]));
                }
                if j < list.len() {
                    assert(list.contains(list[j]));
                }
            }
        }
        assert(options.contains(item) <==> list.contains(item) || item == close) by {
            if options.contains(item) {
                let i = options.index_of(item);
                if i < list.len() {
                    assert(list[i] == item);
                }
            }
            if list.contains(item) {
                assert(options[list.index_of(item)] == item);
            }
            assert(options[list.len() as int] == close);
        }
    }
}

/// What a response does to keep-alive once it is sent: the connection is used again exactly if it
/// would have been, the response does not list `close`, and something other than the end of the
/// connection ends its body: its length is known, or it has none, or the peer knows chunks.
pub proof fn law_keep_alive_after_replies(c: ConnectionView, response: ResponseView)
    requires
        headers::valid_fields(response.headers),
        c.our_role == Role::Server,
        connection::sent(c, EventView::NormalResponse(response)).1 is Ok,
        response.http_version == "1.1".spec_bytes(),
    ensures
        connection::sent(c, EventView::NormalResponse(response)).0.cstate.keep_alive <==> {
            &&& c.cstate.keep_alive
            &&& {
                ||| response.status_code == 204
                ||| response.status_code == 304
                ||| c.request_method == Some("CONNECT".spec_bytes()) && response.status_code / 100
                    == 2
                ||| items::has_field(response.headers, headers::content_length())
                    && !items::has_field(response.headers, headers::transfer_encoding())
                ||| c.request_method == Some("HEAD".spec_bytes())
                ||| c.their_http_version matches Some(version) && !items::comes_before(
                    version,
                    "1.1".spec_bytes(),
                )
            }
            &&& !items::names(response.headers, "connection".spec_bytes(), "close".spec_bytes())
        },
{
    let con = "connection".spec_bytes();
    let close = "close".spec_bytes();
    let ready = connection::cleaned(c, response)->Ok_0;
    let event = EventView::NormalResponse(ready);
    let first = connection::after_writing(c, event).0;
    lemma_open_ended(c, response);
    head_laws::law_keep_alive_after_an_event(first, Role::Server, event);
    lemma_methods();
    law_fields_of_replies(c, response, close);
    assert(!items::comes_before("1.1".spec_bytes(), "1.1".spec_bytes())) by {
        items::law_order("1.1".spec_bytes(), "1.1".spec_bytes());
        lemma_not_before_itself("1.1".spec_bytes());
    }
    if is_the_last(c, response) {
        header_laws::law_last_response_says_close(c, response);
        head_laws::law_what_keeps_a_connection(HeadView::Response(ready));
    } else {
        reveal_strlit("close");
        is_ascii_spec_bytes("close");
        lemma_same_connection_items(c, response);
        items::law_items(response.headers, con, close);
        items::law_items(ready.headers, con, close);
    }
}

proof fn lemma_not_before_itself(s: Seq<u8>)
    ensures
        !bytes::precedes(s, s),
    decreases s.len(),
{
    if s.len() > 0 {
        lemma_not_before_itself(s.drop_first());
    }
}

proof fn lemma_same_connection_items(c: ConnectionView, response: ResponseView)
    requires
        headers::valid_fields(response.headers),
        connection::cleaned(c, response) is Ok,
        !connection::will_close(c, response),
    ensures
        headers::comma_values(
            connection::cleaned(c, response)->Ok_0.headers,
            "connection".spec_bytes(),
        ) == headers::comma_values(response.headers, "connection".spec_bytes()),
{
    let cl = headers::content_length();
    let te = headers::transfer_encoding();
    let con = "connection".spec_bytes();
    let none = Seq::<Seq<u8>>::empty();
    headers::lemma_lower_literals();
    header_laws::lemma_names();
    if connection::is_open_ended(c, response) {
        let first = headers::with_comma_values(response.headers, cl, none)->Ok_0;
        let codings = if connection::peer_is_modern(c) {
            seq!["chunked".spec_bytes()]
        } else {
            none
        };
        header_laws::law_replaced_fields(response.headers, cl, none);
        header_laws::law_set_then_get(response.headers, cl, none, con);
        header_laws::law_set_then_get(first, te, codings, con);
    }
}

/// A server that has to respond, on a connection that is kept alive, sends a response of known
/// length with the very head that it was given, and the connection stays in use unless that head
/// lists `close`. `i` is where the length is named, if it is.
pub proof fn law_known_length_is_sent_as_given(c: ConnectionView, response: ResponseView, i: int)
    requires
        connection::healthy(c),
        c.our_role == Role::Server,
        c.our_state() == State::SendResponse,
        c.writer == Some(WriterView::Response),
        roundtrip::is_sendable_response(response),
        response.status_code >= 200,
        c.cstate.keep_alive,
        ({
            ||| response.status_code == 204
            ||| response.status_code == 304
            ||| c.request_method == Some("CONNECT".spec_bytes()) && response.status_code / 100 == 2
            ||| 0 <= i < response.headers.len() && response.headers[i].name
                == headers::content_length() && bytes::digits_value(response.headers[i].value, 10)
                <= isize::MAX && !items::has_field(response.headers, headers::transfer_encoding())
        }),
    ensures
        ({
            let (after, r) = connection::sent(c, EventView::NormalResponse(response));
            &&& r == Ok::<Option<Seq<u8>>, ErrorView>(
                Some(writers::written_response(response)->Ok_0),
            )
            &&& after.cstate.keep_alive <==> !items::names(
                response.headers,
                "connection".spec_bytes(),
                "close".spec_bytes(),
            )
        }),
{
    let method = connection::header_method(c);
    lemma_methods();
    if response.status_code == 204 || response.status_code == 304 || (method
        == "CONNECT".spec_bytes() && response.status_code / 100 == 2) {
        head_laws::law_nothing_follows(method, response);
    } else {
        head_laws::law_fields_frame_the_body(method, HeadView::Response(response), i);
    }
    assert(framing::has_framing(method, HeadView::Response(response)));
    law_known_length_is_left_alone(c, response);
    success::law_response_is_sent(c, response);
    law_keep_alive_after_replies(c, response);
}

} // verus!
