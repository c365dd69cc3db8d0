//! When sending succeeds: events that are well-formed and come at the right time are sent. And
//! what received data has to be like to be read.
use vstd::prelude::*;
use vstd::string::*;
use vstd::utf8::*;

use crate::abnf;
use crate::bytes;
use crate::bytes::COMMA;
use crate::connection;
use crate::connection::ConnectionView;
use crate::events::{EventView, RequestView, ResponseView};
use crate::framing;
use crate::framing::HeadView;
use crate::header_laws;
use crate::headers;
use crate::headers::Field;
use crate::readers;
use crate::readers::ReaderView;
use crate::roundtrip;
use crate::state::{Role, State, States, Switch};
use crate::text;
use crate::util::ErrorView;
use crate::writers;
use crate::writers::WriterView;

verus! {

/// Whether `s` is header text as a whole.
pub open spec fn is_field_text(s: Seq<u8>) -> bool {
    abnf::field_text_len(s) == s.len()
}

/// A scalar value at the start stays what it is when what comes after a part is cut off, unless
/// the cut is within it; before an ASCII byte it is not.
proof fn lemma_scalar_before(a: Seq<u8>, t: Seq<u8>)
    requires
        a.len() > 0,
        valid_first_scalar(a + t),
        t.len() > 0 ==> t[0] < 128,
    ensures
        valid_first_scalar(a),
        decode_first_scalar(a) == decode_first_scalar(a + t),
        length_of_first_scalar(a) == length_of_first_scalar(a + t),
        length_of_first_scalar(a) <= a.len(),
        pop_first_scalar(a + t) == pop_first_scalar(a) + t,
{
    let s = a + t;
    let n = length_of_first_scalar(s);
    assert(s[0] == a[0]);
    assert(n <= a.len()) by {
        if n > a.len() {
            assert(s[a.len() as int] == t[0]);
        }
    }
    assert(forall|i: int| 0 <= i < n ==> s[i] == a[i]);
    assert(pop_first_scalar(s) =~= pop_first_scalar(a) + t);
}

/// A scalar value at the start stays what it is when something is appended.
proof fn lemma_scalar_extended(a: Seq<u8>, t: Seq<u8>)
    requires
        valid_first_scalar(a),
    ensures
        valid_first_scalar(a + t),
        decode_first_scalar(a + t) == decode_first_scalar(a),
        length_of_first_scalar(a + t) == length_of_first_scalar(a),
        pop_first_scalar(a + t) == pop_first_scalar(a) + t,
{
    let s = a + t;
    let n = length_of_first_scalar(a);
    assert(forall|i: int| 0 <= i < n ==> s[i] == a[i]);
    assert(pop_first_scalar(s) =~= pop_first_scalar(a) + t);
}

/// Header text can be cut before an ASCII byte.
proof fn lemma_text_cut(a: Seq<u8>, t: Seq<u8>)
    requires
        is_field_text(a + t),
        t.len() > 0 ==> t[0] < 128,
    ensures
        is_field_text(a),
        is_field_text(t),
    decreases a.len(),
{
    if a.len() == 0 {
        assert(a + t =~= t);
    } else {
        abnf::lemma_field_text_len(pop_first_scalar(a + t));
        lemma_scalar_before(a, t);
        lemma_text_cut(pop_first_scalar(a), t);
    }
}

/// The pieces between the commas of header text are header text.
proof fn lemma_pieces_are_text(s: Seq<u8>)
    requires
        is_field_text(s),
    ensures
        forall|i: int|
            0 <= i < bytes::split(s, COMMA).len() ==> is_field_text(
                #[trigger] bytes::split(s, COMMA)[i],
            ),
    decreases s.len(),
{
    if !s.contains(COMMA) {
        bytes::lemma_split_whole(s, COMMA);
    } else {
        let k = s.index_of(COMMA);
        let a = s.take(k);
        let b = s.skip(k + 1);
        let t = s.skip(k);
        assert(a + t =~= s);
        lemma_text_cut(a, t);
        text::lemma_ascii_scalar(t);
        assert(t.drop_first() =~= b);
        assert(a.push(COMMA) + b =~= s);
        bytes::lemma_split_join(a, COMMA, b);
        lemma_pieces_are_text(b);
        lemma_pieces_are_text(a);
    }
}

proof fn lemma_trim_start_text(s: Seq<u8>)
    requires
        is_field_text(s),
    ensures
        is_field_text(text::trim_start(s)),
        text::trim_start(s).len() > 0 ==> valid_first_scalar(text::trim_start(s))
            && !text::is_white_space(decode_first_scalar(text::trim_start(s))),
    decreases s.len(),
{
    if s.len() > 0 {
        abnf::lemma_field_text_len(pop_first_scalar(s));
        if text::is_white_space(decode_first_scalar(s)) {
            lemma_trim_start_text(pop_first_scalar(s));
        }
    }
}

/// The last byte of a scalar value that is not white space is no space or tab.
proof fn lemma_solid_end(s: Seq<u8>)
    requires
        valid_first_scalar(s),
        !text::is_white_space(decode_first_scalar(s)),
    ensures
        !bytes::is_ows(s[length_of_first_scalar(s) - 1]),
        !bytes::is_ows(s[0]),
{
    if s[0] < 128 {
        text::lemma_ascii_scalar(s);
    }
}

proof fn lemma_text_len_text(u: Seq<u8>)
    requires
        is_field_text(u),
    ensures
        0 <= text::text_len(u) <= u.len(),
        is_field_text(u.take(text::text_len(u))),
        text::text_len(u) > 0 ==> !bytes::is_ows(u[text::text_len(u) - 1]),
        u.len() > 0 && !text::is_white_space(decode_first_scalar(u)) ==> text::text_len(u) > 0,
    decreases u.len(),
{
    if u.len() == 0 {
        assert(u.take(0) =~= u);
    } else {
        let w = pop_first_scalar(u);
        let l = length_of_first_scalar(u);
        let n = text::text_len(u);
        let rest = text::text_len(w);
        abnf::lemma_field_text_len(w);
        lemma_text_len_text(w);
        let first = u.take(l);
        assert(first + w =~= u);
        lemma_first_alone(u);
        if rest > 0 {
            assert(u.take(n) =~= first + w.take(rest));
            lemma_scalar_extended(first, w.take(rest));
            assert(pop_first_scalar(first) =~= Seq::<u8>::empty());
            assert(Seq::<u8>::empty() + w.take(rest) =~= w.take(rest));
            assert(u[n - 1] == w[rest - 1]);
        } else if text::is_white_space(decode_first_scalar(u)) {
            assert(u.take(0) =~= Seq::<u8>::empty());
        } else {
            lemma_solid_end(u);
            assert(pop_first_scalar(first) =~= Seq::<u8>::empty());
            assert(abnf::field_text_len(Seq::<u8>::empty()) == 0);
        }
    }
}

/// The first scalar value by itself.
proof fn lemma_first_alone(u: Seq<u8>)
    requires
        valid_first_scalar(u),
    ensures
        valid_first_scalar(u.take(length_of_first_scalar(u))),
        decode_first_scalar(u.take(length_of_first_scalar(u))) == decode_first_scalar(u),
        length_of_first_scalar(u.take(length_of_first_scalar(u))) == length_of_first_scalar(u),
{
    let l = length_of_first_scalar(u);
    assert(forall|i: int| 0 <= i < l ==> u.take(l)[i] == u[i]);
}

/// Header text without the white space around it is a header value.
pub proof fn lemma_trimmed_is_value(s: Seq<u8>)
    requires
        is_field_text(s),
    ensures
        abnf::is_field_value(text::trim(s)),
{
    let u = text::trim_start(s);
    lemma_trim_start_text(s);
    lemma_text_len_text(u);
    if u.len() > 0 {
        lemma_solid_end(u);
    }
}

/// Letter case does not matter to header text.
proof fn lemma_lowercase_is_text(s: Seq<u8>)
    requires
        is_field_text(s),
    ensures
        is_field_text(bytes::lowercase(s)),
    decreases s.len(),
{
    let t = bytes::lowercase(s);
    if s.len() > 0 {
        let l = length_of_first_scalar(s);
        abnf::lemma_field_text_len(pop_first_scalar(s));
        lemma_lowercase_is_text(pop_first_scalar(s));
        if s[0] < 128 {
            text::lemma_ascii_scalar(s);
            text::lemma_ascii_scalar(t);
            assert(pop_first_scalar(t) =~= bytes::lowercase(pop_first_scalar(s)));
        } else {
            assert(forall|i: int| 0 <= i < l ==> t[i] == s[i]);
            assert(pop_first_scalar(t) =~= bytes::lowercase(pop_first_scalar(s)));
        }
    }
}

proof fn lemma_nonempty_of_values(items: Seq<Seq<u8>>)
    requires
        forall|i: int| 0 <= i < items.len() ==> abnf::is_field_value(#[trigger] items[i]),
    ensures
        forall|i: int|
            0 <= i < headers::nonempty(items).len() ==> abnf::is_field_value(
                #[trigger] headers::nonempty(items)[i],
            ),
    decreases items.len(),
{
    if items.len() > 0 {
        let front = items.drop_last();
        assert forall|i: int| 0 <= i < front.len() implies abnf::is_field_value(
            #[trigger] front[i],
        ) by {
            assert(front[i] == items[i]);
        }
        lemma_nonempty_of_values(front);
        assert(abnf::is_field_value(items[items.len() - 1]));
        let all = headers::nonempty(items);
        let before = headers::nonempty(front);
        assert forall|i: int| 0 <= i < all.len() implies abnf::is_field_value(
            #[trigger] all[i],
        ) by {
            if i < before.len() {
                assert(all[i] == before[i]);
            }
        }
    }
}

/// The items of header values are header values themselves.
pub proof fn law_items_are_values(fields: Seq<Field>, name: Seq<u8>)
    requires
        roundtrip::are_sendable(fields),
    ensures
        forall|i: int|
            0 <= i < headers::comma_values(fields, name).len() ==> abnf::is_field_value(
                #[trigger] headers::comma_values(fields, name)[i],
            ),
    decreases fields.len(),
{
    if fields.len() > 0 {
        let front = fields.drop_last();
        let value = fields.last().value;
        assert forall|i: int| 0 <= i < front.len() implies #[trigger] front[i] == fields[i] by {}
        law_items_are_values(front, name);
        assert(abnf::is_field_value(fields[fields.len() - 1].value));
        let lower = bytes::lowercase(value);
        lemma_lowercase_is_text(value);
        lemma_pieces_are_text(lower);
        let pieces = bytes::split(lower, COMMA);
        let items = headers::list_items(lower);
        assert forall|i: int| 0 <= i < items.len() implies abnf::is_field_value(
            #[trigger] items[i],
        ) by {
            assert(is_field_text(pieces[i]));
            lemma_trimmed_is_value(pieces[i]);
        }
        lemma_nonempty_of_values(items);
        let all = headers::comma_values(fields, name);
        let before = headers::comma_values(front, name);
        assert forall|i: int| 0 <= i < all.len() implies abnf::is_field_value(
            #[trigger] all[i],
        ) by {
            if i < before.len() {
                assert(all[i] == before[i]);
            } else {
                assert(all[i] == headers::nonempty(items)[i - before.len()]);
            }
        }
    }
}

proof fn lemma_lowercase_token(s: Seq<u8>)
    requires
        abnf::is_token(s),
    ensures
        abnf::is_token(bytes::lowercase(s)),
{
    let t = bytes::lowercase(s);
    assert forall|i: int| 0 <= i < t.len() implies abnf::in_class(
        abnf::Class::Token,
        #[trigger] t[i],
    ) by {
        assert(abnf::in_class(abnf::Class::Token, s[i]));
    }
}

/// The fields that are kept are sendable if all were.
proof fn lemma_kept_sendable(fields: Seq<Field>, name: Seq<u8>)
    requires
        headers::valid_fields(fields),
        roundtrip::are_sendable(fields),
    ensures
        roundtrip::are_sendable(header_laws::kept(fields, name)),
    decreases fields.len(),
{
    if fields.len() > 0 {
        let front = fields.drop_last();
        assert forall|i: int| 0 <= i < front.len() implies #[trigger] front[i] == fields[i] by {}
        lemma_kept_sendable(front, name);
        assert(abnf::is_token(fields[fields.len() - 1].raw_name));
        lemma_lowercase_token(fields.last().raw_name);
    }
}

proof fn lemma_append_succeeds(fields: Seq<Field>, name: Seq<u8>, values: Seq<Seq<u8>>)
    requires
        header_laws::is_plain_change(name, values),
        abnf::is_token(name),
        forall|i: int| 0 <= i < values.len() ==> abnf::is_field_value(#[trigger] values[i]),
        forall|i: int| 0 <= i < fields.len() ==> (#[trigger] fields[i]).name != name,
        headers::normalize(roundtrip::raw_pairs(fields), false) is Ok,
        headers::normalize(roundtrip::raw_pairs(fields), false)->Ok_0.fields == fields,
        roundtrip::is_backed(headers::normalize(roundtrip::raw_pairs(fields), false)->Ok_0),
    ensures
        headers::normalize(
            roundtrip::raw_pairs(fields) + values.map_values(|v: Seq<u8>| (name, v)),
            false,
        ) is Ok,
    decreases values.len(),
{
    let added = values.map_values(|v: Seq<u8>| (name, v));
    let pairs = roundtrip::raw_pairs(fields) + added;
    if values.len() == 0 {
        assert(pairs =~= roundtrip::raw_pairs(fields));
    } else {
        let front = values.drop_last();
        assert(abnf::is_field_value(values[values.len() - 1]));
        assert(added.drop_last() =~= front.map_values(|v: Seq<u8>| (name, v)));
        assert(pairs.drop_last() =~= roundtrip::raw_pairs(fields) + added.drop_last());
        assert(pairs.last() == (name, values.last()));
        headers::lemma_lower_literals();
        if name == headers::transfer_encoding() {
            assert(front =~= Seq::<Seq<u8>>::empty());
            assert(pairs.drop_last() =~= roundtrip::raw_pairs(fields));
        } else {
            assert forall|i: int| 0 <= i < front.len() implies abnf::is_field_value(
                #[trigger] front[i],
            ) by {
                assert(front[i] == values[i]);
            }
            lemma_append_succeeds(fields, name, front);
        }
    }
}

/// Values of a name can be replaced by header values.
pub proof fn law_setting_succeeds(fields: Seq<Field>, name: Seq<u8>, values: Seq<Seq<u8>>)
    requires
        headers::valid_fields(fields),
        roundtrip::are_sendable(fields),
        header_laws::is_plain_change(name, values),
        abnf::is_token(name),
        forall|i: int| 0 <= i < values.len() ==> abnf::is_field_value(#[trigger] values[i]),
    ensures
        headers::with_comma_values(fields, name, values) is Ok,
{
    let rest = header_laws::kept(fields, name);
    header_laws::lemma_kept_pairs(fields, name);
    header_laws::lemma_kept(fields, name);
    lemma_kept_sendable(fields, name);
    roundtrip::lemma_normalize_again(rest, false);
    assert forall|i: int| 0 <= i < rest.len() implies (#[trigger] rest[i]).name != name by {}
    lemma_append_succeeds(rest, name, values);
}

proof fn lemma_closing_values(items: Seq<Seq<u8>>)
    requires
        forall|i: int| 0 <= i < items.len() ==> abnf::is_field_value(#[trigger] items[i]),
    ensures
        forall|i: int|
            0 <= i < connection::closing_items(items).len() ==> abnf::is_field_value(
                #[trigger] connection::closing_items(items)[i],
            ),
    decreases items.len(),
{
    if items.len() > 0 {
        let front = items.drop_last();
        assert forall|i: int| 0 <= i < front.len() implies abnf::is_field_value(
            #[trigger] front[i],
        ) by {
            assert(front[i] == items[i]);
        }
        lemma_closing_values(front);
        assert(abnf::is_field_value(items[items.len() - 1]));
        let all = connection::closing_items(items);
        let before = connection::closing_items(front);
        assert forall|i: int| 0 <= i < all.len() implies abnf::is_field_value(
            #[trigger] all[i],
        ) by {
            if i < before.len() {
                assert(all[i] == before[i]);
            }
        }
    }
}

/// The names and the values that are written by the library are in order.
proof fn lemma_own_fields()
    ensures
        abnf::is_token(headers::content_length()),
        abnf::is_token(headers::transfer_encoding()),
        abnf::is_token("connection".spec_bytes()),
        abnf::is_field_value("chunked".spec_bytes()),
        abnf::is_field_value("close".spec_bytes()),
{
    reveal_strlit("content-length");
    reveal_strlit("transfer-encoding");
    reveal_strlit("connection");
    reveal_strlit("chunked");
    reveal_strlit("close");
    is_ascii_spec_bytes("content-length");
    is_ascii_spec_bytes("transfer-encoding");
    is_ascii_spec_bytes("connection");
    is_ascii_spec_bytes("chunked");
    is_ascii_spec_bytes("close");
    roundtrip::lemma_ascii_field_value("chunked".spec_bytes());
    roundtrip::lemma_ascii_field_value("close".spec_bytes());
}

proof fn lemma_sendable_is_readable(fields: Seq<Field>, name: Seq<u8>)
    requires
        roundtrip::are_sendable(fields),
    ensures
        headers::readable(fields, name),
{
    assert forall|i: int| 0 <= i < fields.len() && (#[trigger] fields[i]).name
        == name implies valid_utf8(fields[i].value) by {
        abnf::lemma_field_text_utf8(fields[i].value);
    }
}

proof fn lemma_framed(c: ConnectionView, response: ResponseView)
    requires
        headers::valid_fields(response.headers),
        roundtrip::are_sendable(response.headers),
    ensures
        connection::framed_fields(c, response) is Ok,
        headers::valid_fields(connection::framed_fields(c, response)->Ok_0),
        roundtrip::are_sendable(connection::framed_fields(c, response)->Ok_0),
{
    if connection::is_open_ended(c, response) {
        let cl = headers::content_length();
        let te = headers::transfer_encoding();
        let none = Seq::<Seq<u8>>::empty();
        headers::lemma_lower_literals();
        header_laws::lemma_names();
        lemma_own_fields();
        law_setting_succeeds(response.headers, cl, none);
        header_laws::law_replaced_fields(response.headers, cl, none);
        let first = headers::with_comma_values(response.headers, cl, none)->Ok_0;
        let codings = if connection::peer_is_modern(c) {
            seq!["chunked".spec_bytes()]
        } else {
            none
        };
        law_setting_succeeds(first, te, codings);
        header_laws::law_replaced_fields(first, te, codings);
    }
}

/// A response with fields that may be sent, and with a body that has a framing, can be made
/// ready to be sent, and its fields may be sent then.
pub proof fn law_response_is_made_ready(c: ConnectionView, response: ResponseView)
    requires
        headers::valid_fields(response.headers),
        roundtrip::are_sendable(response.headers),
        framing::has_framing(connection::header_method(c), HeadView::Response(response)),
    ensures
        connection::can_clean(c, response),
        connection::cleaned(c, response) is Ok,
        headers::valid_fields(connection::cleaned(c, response)->Ok_0.headers),
        roundtrip::are_sendable(connection::cleaned(c, response)->Ok_0.headers),
{
    let con = "connection".spec_bytes();
    lemma_framed(c, response);
    let framed = connection::framed_fields(c, response)->Ok_0;
    lemma_sendable_is_readable(framed, con);
    if connection::will_close(c, response) {
        headers::lemma_lower_literals();
        header_laws::lemma_names();
        lemma_own_fields();
        let items = headers::comma_values(framed, con);
        law_items_are_values(framed, con);
        lemma_closing_values(items);
        let values = connection::closing_items(items).push("close".spec_bytes());
        law_setting_succeeds(framed, con, values);
        header_laws::law_replaced_fields(framed, con, values);
    }
}

/// A client that starts a cycle can send any request that is in order, with what is written of
/// it; the server has to respond then.
pub proof fn law_request_is_sent(c: ConnectionView, request: RequestView)
    requires
        connection::healthy(c),
        c.our_role == Role::Client,
        c.cstate.states == (States { client: State::Idle, server: State::Idle }),
        c.writer == Some(WriterView::Request),
        roundtrip::is_sendable_request(request),
        framing::has_framing(request.method, HeadView::Request(request)),
    ensures
        connection::can_send_event(c, EventView::Request(request)),
        connection::sent(c, EventView::Request(request)).1 == Ok::<Option<Seq<u8>>, ErrorView>(
            Some(writers::written_request(request)->Ok_0),
        ),
        connection::sent(c, EventView::Request(request)).0.cstate.states == (States {
            client: State::SendBody,
            server: State::SendResponse,
        }),
{
    lemma_sendable_is_readable(request.headers, "upgrade".spec_bytes());
    lemma_sendable_is_readable(request.headers, "connection".spec_bytes());
    lemma_sendable_is_readable(request.headers, "expect".spec_bytes());
}

/// A server that has to respond can send any final response that is in order, as it is made
/// ready.
pub proof fn law_response_is_sent(c: ConnectionView, response: ResponseView)
    requires
        connection::healthy(c),
        c.our_role == Role::Server,
        c.our_state() == State::SendResponse,
        c.writer == Some(WriterView::Response),
        roundtrip::is_sendable_response(response),
        framing::has_framing(connection::header_method(c), HeadView::Response(response)),
    ensures
        connection::can_send_event(c, EventView::NormalResponse(response)),
        connection::cleaned(c, response) is Ok,
        connection::sent(c, EventView::NormalResponse(response)).1 == Ok::<
            Option<Seq<u8>>,
            ErrorView,
        >(Some(writers::written_response(connection::cleaned(c, response)->Ok_0)->Ok_0)),
{
    law_response_is_made_ready(c, response);
    header_laws::law_response_framing(c, response);
    let ready = connection::cleaned(c, response)->Ok_0;
    lemma_sendable_is_readable(ready.headers, "connection".spec_bytes());
    assert(framing::has_framing(c.method(), HeadView::Response(ready)));
    assert(connection::stepped(c.cstate, Role::Server, EventView::NormalResponse(ready)).1 is Ok);
}

/// A server that has to respond can send interim responses; one that switches protocols only if
/// the client has proposed it.
pub proof fn law_interim_response_is_sent(c: ConnectionView, response: ResponseView)
    requires
        connection::healthy(c),
        c.our_role == Role::Server,
        c.our_state() == State::SendResponse,
        c.writer == Some(WriterView::Response),
        response.http_version == "1.1".spec_bytes(),
        response.status_code == 101 ==> c.cstate.pending_switch_proposals.has(
            Switch::SwitchUpgrade,
        ),
    ensures
        connection::can_send_event(c, EventView::InformationalResponse(response)),
        connection::sent(c, EventView::InformationalResponse(response)).1 == Ok::<
            Option<Seq<u8>>,
            ErrorView,
        >(Some(writers::written_response(response)->Ok_0)),
{
}

/// A side that sends a body can send what its writer writes.
pub proof fn law_body_is_sent(c: ConnectionView, event: EventView)
    requires
        connection::healthy(c),
        c.our_state() == State::SendBody,
        c.writer is Some,
        !(c.writer->0 is Request) && !(c.writer->0 is Response),
        event is Data || event is EndOfMessage,
        writers::written(c.writer->0, event).1 is Ok,
    ensures
        connection::can_send_event(c, event),
        connection::sent(c, event).1 == Ok::<Option<Seq<u8>>, ErrorView>(
            Some(writers::written(c.writer->0, event).1->Ok_0),
        ),
{
}

/// Whether the values of all fields are text.
pub open spec fn are_text(fields: Seq<Field>) -> bool {
    forall|i: int| 0 <= i < fields.len() ==> valid_utf8((#[trigger] fields[i]).value)
}

proof fn lemma_normalized_text(pairs: Seq<(Seq<u8>, Seq<u8>)>)
    requires
        forall|i: int| 0 <= i < pairs.len() ==> valid_utf8((#[trigger] pairs[i]).1),
    ensures
        headers::normalize(pairs, true) matches Ok(n) ==> are_text(n.fields),
    decreases pairs.len(),
{
    if pairs.len() > 0 {
        let front = pairs.drop_last();
        assert forall|i: int| 0 <= i < front.len() implies valid_utf8((#[trigger] front[i]).1) by {
            assert(front[i] == pairs[i]);
        }
        lemma_normalized_text(front);
        assert(valid_utf8(pairs[pairs.len() - 1].1));
        if let Ok(n) = headers::normalize(pairs, true) {
            let before = headers::normalize(front, true)->Ok_0;
            assert forall|i: int| 0 <= i < n.fields.len() implies valid_utf8(
                (#[trigger] n.fields[i]).value,
            ) by {
                if i < before.fields.len() {
                    assert(n.fields[i] == before.fields[i]);
                } else {
                    let f = n.fields[i];
                    if f.name == headers::content_length() {
                        assert forall|j: int| 0 <= j < f.value.len() implies #[trigger] f.value[j]
                            < 128 by {
                            assert(bytes::is_digit(f.value[j]));
                        }
                        framing::lemma_ascii_utf8(f.value);
                    } else if f.name == headers::transfer_encoding() {
                        encode_utf8_valid_utf8("chunked"@);
                    }
                }
            }
        }
    }
}

proof fn lemma_parsed_text(lines: Seq<Seq<u8>>)
    ensures
        readers::parsed_fields(lines) matches Ok(fields) ==> are_text(fields),
{
    readers::lemma_decoded_text(lines);
    if let Ok(pairs) = readers::decoded(lines) {
        lemma_normalized_text(pairs);
    }
}

/// The values of received header fields are text.
pub proof fn law_received_fields_are_text(reader: ReaderView, buffer: Seq<u8>)
    ensures
        match readers::reading(reader, buffer).result {
            Ok(Some(EventView::Request(request))) => are_text(request.headers),
            Ok(Some(EventView::NormalResponse(response))) => are_text(response.headers),
            Ok(Some(EventView::InformationalResponse(response))) => are_text(response.headers),
            _ => true,
        },
{
    if let Some((lines, _)) = crate::receivebuffer::lines_at(buffer) {
        if lines.len() > 0 {
            lemma_parsed_text(lines.skip(1));
        }
    }
}

/// The next event can be taken out of the received data whenever the peer's side has failed
/// already, or else the head that comes next, if there is a whole one, has room for a reason and,
/// if a body follows it, a framing.
pub proof fn law_what_can_be_received(c: ConnectionView)
    requires
        c.their_state() == State::Error || {
            &&& connection::can_extract(c)
            &&& connection::extracted(c).1 matches Ok(event) ==> (framing::is_head(event)
                ==> framing::has_framing(
                ConnectionView {
                    request_method: connection::method_after(c.request_method, event),
                    ..c
                }.method(),
                framing::head_of(event),
            ))
        },
    ensures
        connection::can_receive(c),
{
    if c.their_state() != State::Error {
        let (after, r) = connection::extracted(c);
        law_received_fields_are_text(c.reader->0, c.buffer);
        if let Ok(event) = r {
            match event {
                EventView::Request(request) => {
                    assert(are_text(request.headers));
                },
                EventView::NormalResponse(response) => {
                    assert(are_text(response.headers));
                },
                _ => {},
            }
            let (cstate, q) = connection::stepped(after.cstate, c.their_role(), event);
            if q is Ok && cstate.states.at(c.their_role()) == State::SendBody
                && after.cstate.states.at(c.their_role()) != State::SendBody {
                connection::lemma_starts_body(after.cstate, c.their_role(), event);
            }
        }
    }
}

} // verus!
