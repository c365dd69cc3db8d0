//! Laws of header fields: what replacing the values of a name does, and what becomes of the
//! framing of a response that is made ready to be sent.
use vstd::prelude::*;
use vstd::string::*;

use crate::abnf;
use crate::bytes;
use crate::connection;
use crate::connection::ConnectionView;
use crate::events::ResponseView;
use crate::framing;
use crate::framing::{Framing, HeadView};
use crate::headers;
use crate::headers::{Field, Normalized};
use crate::roundtrip;

verus! {

/// The fields of other names, their own names in lower case.
pub open spec fn kept(fields: Seq<Field>, name: Seq<u8>) -> Seq<Field>
    decreases fields.len(),
{
    if fields.len() == 0 {
        Seq::empty()
    } else if fields.last().name != name {
        kept(fields.drop_last(), name).push(
            Field { raw_name: fields.last().name, ..fields.last() },
        )
    } else {
        kept(fields.drop_last(), name)
    }
}

/// New fields of a name, one for each value.
pub open spec fn fresh_fields(name: Seq<u8>, values: Seq<Seq<u8>>) -> Seq<Field> {
    values.map_values(|v: Seq<u8>| Field { raw_name: name, name, value: v })
}

proof fn lemma_lowercase_twice(s: Seq<u8>)
    ensures
        bytes::lowercase(bytes::lowercase(s)) == bytes::lowercase(s),
{
    assert(bytes::lowercase(bytes::lowercase(s)) =~= bytes::lowercase(s));
}

pub proof fn lemma_kept_pairs(fields: Seq<Field>, name: Seq<u8>)
    ensures
        roundtrip::raw_pairs(kept(fields, name)) == headers::without(
            headers::names_and_values(fields),
            name,
        ),
    decreases fields.len(),
{
    let pairs = headers::names_and_values(fields);
    if fields.len() > 0 {
        lemma_kept_pairs(fields.drop_last(), name);
        assert(pairs.drop_last() =~= headers::names_and_values(fields.drop_last()));
        assert(roundtrip::raw_pairs(kept(fields, name)) =~= headers::without(pairs, name));
    } else {
        assert(roundtrip::raw_pairs(kept(fields, name)) =~= headers::without(pairs, name));
    }
}

/// The fields that are kept are among the fields, but for the case of their names.
pub proof fn lemma_kept(fields: Seq<Field>, name: Seq<u8>)
    requires
        headers::valid_fields(fields),
    ensures
        headers::valid_fields(kept(fields, name)),
        forall|i: int|
            0 <= i < kept(fields, name).len() ==> (#[trigger] kept(fields, name)[i]).name != name
                && exists|j: int|
                0 <= j < fields.len() && (#[trigger] fields[j]).name == kept(fields, name)[i].name,
    decreases fields.len(),
{
    if fields.len() > 0 {
        let front = fields.drop_last();
        let last = fields.last();
        assert forall|i: int| 0 <= i < front.len() implies #[trigger] front[i] == fields[i] by {}
        assert(fields[fields.len() - 1] == last);
        lemma_kept(front, name);
        let before = kept(front, name);
        let all = kept(fields, name);
        assert forall|i: int| 0 <= i < before.len() implies exists|j: int|
            0 <= j < fields.len() - 1 && (#[trigger] fields[j]).name == (
            #[trigger] before[i]).name by {
            let j = choose|j: int|
                0 <= j < front.len() && (#[trigger] front[j]).name == before[i].name;
            assert(fields[j].name == before[i].name);
        }
        lemma_lowercase_twice(last.raw_name);
        assert forall|i: int| 0 <= i < all.len() implies (#[trigger] all[i]).name != name
            && exists|j: int|
            0 <= j < fields.len() && (#[trigger] fields[j]).name == all[i].name by {
            if i < before.len() {
                assert(all[i] == before[i]);
            } else {
                assert(fields[fields.len() - 1].name == all[i].name);
            }
        }
        if last.name != name {
            assert forall|i: int| 0 <= i < before.len() implies !((#[trigger] before[i]).name
                == headers::content_length() && last.name == headers::content_length()) && !(
            before[i].name == headers::transfer_encoding() && last.name
                == headers::transfer_encoding()) by {
                let j = choose|j: int|
                    0 <= j < fields.len() - 1 && (#[trigger] fields[j]).name == before[i].name;
            }
        }
    }
}

/// What was accepted is sendable.
proof fn lemma_accepted_pairs(pairs: Seq<(Seq<u8>, Seq<u8>)>)
    requires
        headers::normalize(pairs, false) is Ok,
    ensures
        forall|i: int|
            0 <= i < pairs.len() ==> abnf::is_token((#[trigger] pairs[i]).0)
                && abnf::is_field_value(pairs[i].1),
    decreases pairs.len(),
{
    if pairs.len() > 0 {
        lemma_accepted_pairs(pairs.drop_last());
        assert forall|i: int| 0 <= i < pairs.len() implies abnf::is_token((#[trigger] pairs[i]).0)
            && abnf::is_field_value(pairs[i].1) by {
            if i < pairs.len() - 1 {
                assert(pairs[i] == pairs.drop_last()[i]);
            }
        }
    }
}

/// A prefix of what was accepted is accepted.
proof fn lemma_accepted_prefix(a: Seq<(Seq<u8>, Seq<u8>)>, b: Seq<(Seq<u8>, Seq<u8>)>)
    requires
        headers::normalize(a + b, false) is Ok,
    ensures
        headers::normalize(a, false) is Ok,
{
    if headers::normalize(a, false) is Err {
        assert((a + b).take(a.len() as int) =~= a);
        headers::lemma_normalize_prefix(a + b, false, a.len() as int);
    }
}

/// Whether the values of a name may be replaced by some, or by these.
pub open spec fn is_plain_change(name: Seq<u8>, values: Seq<Seq<u8>>) -> bool {
    &&& bytes::lowercase(name) == name
    &&& name == headers::content_length() ==> values.len() == 0
    &&& name == headers::transfer_encoding() ==> values.len() == 0 || values
        == seq!["chunked".spec_bytes()]
}

proof fn lemma_appended(
    fields: Seq<Field>,
    name: Seq<u8>,
    values: Seq<Seq<u8>>,
    n: Normalized,
)
    requires
        is_plain_change(name, values),
        forall|i: int| 0 <= i < fields.len() ==> (#[trigger] fields[i]).name != name,
        headers::normalize(roundtrip::raw_pairs(fields), false) is Ok,
        headers::normalize(roundtrip::raw_pairs(fields), false)->Ok_0.fields == fields,
        roundtrip::is_backed(headers::normalize(roundtrip::raw_pairs(fields), false)->Ok_0),
        headers::normalize(
            roundtrip::raw_pairs(fields) + values.map_values(|v: Seq<u8>| (name, v)),
            false,
        ) == Ok::<Normalized, crate::util::ErrorView>(n),
    ensures
        n.fields == fields + fresh_fields(name, values),
    decreases values.len(),
{
    let added = values.map_values(|v: Seq<u8>| (name, v));
    let pairs = roundtrip::raw_pairs(fields) + added;
    if values.len() == 0 {
        assert(pairs =~= roundtrip::raw_pairs(fields));
        assert(n.fields =~= fields + fresh_fields(name, values));
    } else {
        let front = values.drop_last();
        assert(added.drop_last() =~= front.map_values(|v: Seq<u8>| (name, v)));
        assert(pairs.drop_last() =~= roundtrip::raw_pairs(fields) + added.drop_last());
        assert(pairs.last() == (name, values.last()));
        let before = headers::normalize(pairs.drop_last(), false)->Ok_0;
        headers::lemma_lower_literals();
        if name == headers::transfer_encoding() {
            assert(front =~= Seq::<Seq<u8>>::empty());
            assert(pairs.drop_last() =~= roundtrip::raw_pairs(fields));
            assert(!before.transfer_encoding);
            assert(n.fields =~= fields + fresh_fields(name, values));
        } else {
            lemma_appended(fields, name, front, before);
            assert(n.fields =~= fields + fresh_fields(name, values));
        }
    }
}

/// Replacing the values of a name leaves the fields of other names, and adds a field for each
/// new value at the end.
pub proof fn law_replaced_fields(fields: Seq<Field>, name: Seq<u8>, values: Seq<Seq<u8>>)
    requires
        headers::valid_fields(fields),
        is_plain_change(name, values),
        headers::with_comma_values(fields, name, values) is Ok,
    ensures
        headers::with_comma_values(fields, name, values)->Ok_0 == kept(fields, name) + fresh_fields(
            name,
            values,
        ),
        headers::valid_fields(headers::with_comma_values(fields, name, values)->Ok_0),
        roundtrip::are_sendable(headers::with_comma_values(fields, name, values)->Ok_0),
{
    let rest = kept(fields, name);
    let pairs = roundtrip::raw_pairs(rest);
    let added = values.map_values(|v: Seq<u8>| (name, v));
    lemma_kept_pairs(fields, name);
    lemma_kept(fields, name);
    lemma_accepted_prefix(pairs, added);
    lemma_accepted_pairs(pairs);
    assert(roundtrip::are_sendable(rest)) by {
        assert forall|i: int| 0 <= i < rest.len() implies abnf::is_token(
            (#[trigger] rest[i]).raw_name,
        ) && abnf::is_field_value(rest[i].value) by {
            assert(pairs[i] == (rest[i].raw_name, rest[i].value));
        }
    }
    roundtrip::lemma_normalize_again(rest, false);
    lemma_appended(rest, name, values, headers::normalize(pairs + added, false)->Ok_0);
    headers::lemma_normalize_valid(pairs + added, false);
    roundtrip::lemma_normalized_sendable(pairs + added);
}

pub proof fn lemma_comma_append(a: Seq<Field>, b: Seq<Field>, name: Seq<u8>)
    ensures
        headers::comma_values(a + b, name) == headers::comma_values(a, name)
            + headers::comma_values(b, name),
    decreases b.len(),
{
    if b.len() == 0 {
        assert(a + b =~= a);
        assert(headers::comma_values(a, name) + headers::comma_values(b, name)
            =~= headers::comma_values(a, name));
    } else {
        lemma_comma_append(a, b.drop_last(), name);
        assert((a + b).drop_last() =~= a + b.drop_last());
        assert(headers::comma_values(a + b, name) =~= headers::comma_values(a, name)
            + headers::comma_values(b, name));
    }
}

proof fn lemma_comma_kept(fields: Seq<Field>, name: Seq<u8>, other: Seq<u8>)
    ensures
        headers::comma_values(kept(fields, name), other) == (if other == name {
            Seq::<Seq<u8>>::empty()
        } else {
            headers::comma_values(fields, other)
        }),
    decreases fields.len(),
{
    if fields.len() > 0 {
        lemma_comma_kept(fields.drop_last(), name, other);
        if fields.last().name != name {
            assert(kept(fields, name).drop_last() =~= kept(fields.drop_last(), name));
        }
    }
}

/// The items of values that commas separate, in lower case.
pub open spec fn items_of(values: Seq<Seq<u8>>) -> Seq<Seq<u8>>
    decreases values.len(),
{
    if values.len() == 0 {
        Seq::empty()
    } else {
        items_of(values.drop_last()) + headers::nonempty(
            headers::list_items(bytes::lowercase(values.last())),
        )
    }
}

proof fn lemma_comma_fresh(name: Seq<u8>, values: Seq<Seq<u8>>, other: Seq<u8>)
    ensures
        headers::comma_values(fresh_fields(name, values), other) == (if other == name {
            items_of(values)
        } else {
            Seq::<Seq<u8>>::empty()
        }),
    decreases values.len(),
{
    let fields = fresh_fields(name, values);
    if values.len() > 0 {
        lemma_comma_fresh(name, values.drop_last(), other);
        assert(fields.drop_last() =~= fresh_fields(name, values.drop_last()));
    }
}

/// What was set is what is got; the values of other names stay as they were.
pub proof fn law_set_then_get(
    fields: Seq<Field>,
    name: Seq<u8>,
    values: Seq<Seq<u8>>,
    other: Seq<u8>,
)
    requires
        headers::valid_fields(fields),
        is_plain_change(name, values),
        headers::with_comma_values(fields, name, values) is Ok,
    ensures
        headers::comma_values(headers::with_comma_values(fields, name, values)->Ok_0, name)
            == items_of(values),
        other != name ==> headers::comma_values(
            headers::with_comma_values(fields, name, values)->Ok_0,
            other,
        ) == headers::comma_values(fields, other),
{
    law_replaced_fields(fields, name, values);
    lemma_comma_append(kept(fields, name), fresh_fields(name, values), name);
    lemma_comma_kept(fields, name, name);
    lemma_comma_fresh(name, values, name);
    assert(Seq::<Seq<u8>>::empty() + items_of(values) =~= items_of(values));
    if other != name {
        lemma_comma_append(kept(fields, name), fresh_fields(name, values), other);
        lemma_comma_kept(fields, name, other);
        lemma_comma_fresh(name, values, other);
        assert(headers::comma_values(fields, other) + Seq::<Seq<u8>>::empty()
            =~= headers::comma_values(fields, other));
    }
}

proof fn lemma_chunked_item()
    ensures
        headers::nonempty(headers::list_items(bytes::lowercase("chunked".spec_bytes()))) == seq![
            "chunked".spec_bytes(),
        ],
{
    let value = "chunked".spec_bytes();
    headers::lemma_lower_literals();
    reveal_strlit("chunked");
    is_ascii_spec_bytes("chunked");
    assert(!value.contains(bytes::COMMA));
    bytes::lemma_split_whole(value, bytes::COMMA);
    crate::text::lemma_trim_solid(value);
    let items = headers::list_items(value);
    assert(items =~= seq![value]);
    assert(items.drop_last() =~= Seq::<Seq<u8>>::empty());
    assert(headers::nonempty(items.drop_last()) =~= Seq::<Seq<u8>>::empty());
    assert(headers::nonempty(items) =~= seq![value]);
}

/// A message names no transfer coding, or the one that is supported.
pub proof fn law_only_coding_is_chunked(fields: Seq<Field>)
    requires
        headers::valid_fields(fields),
    ensures
        ({
            let codings = headers::comma_values(fields, headers::transfer_encoding());
            codings.len() == 0 || codings == seq!["chunked".spec_bytes()]
        }),
        headers::comma_values(fields, headers::transfer_encoding()).len() > 0 <==> exists|i: int|
            0 <= i < fields.len() && (#[trigger] fields[i]).name == headers::transfer_encoding(),
    decreases fields.len(),
{
    if fields.len() > 0 {
        let front = fields.drop_last();
        let last = fields.last();
        let name = headers::transfer_encoding();
        assert forall|i: int| 0 <= i < front.len() implies #[trigger] front[i] == fields[i] by {}
        assert(fields[fields.len() - 1] == last);
        law_only_coding_is_chunked(front);
        if last.name == name {
            lemma_chunked_item();
            assert(headers::comma_values(front, name).len() == 0);
            assert(headers::comma_values(front, name) =~= Seq::<Seq<u8>>::empty());
            assert(headers::comma_values(fields, name) =~= seq!["chunked".spec_bytes()]);
        } else {
            if headers::comma_values(front, name).len() > 0 {
                let j = choose|j: int| 0 <= j < front.len() && (#[trigger] front[j]).name == name;
                assert(fields[j].name == name);
            }
            if exists|i: int| 0 <= i < fields.len() && (#[trigger] fields[i]).name == name {
                let j = choose|j: int| 0 <= j < fields.len() && (#[trigger] fields[j]).name == name;
                assert(front[j].name == name);
            }
        }
    }
}

/// The names that a response is changed under are different.
pub proof fn lemma_names()
    ensures
        bytes::lowercase("connection".spec_bytes()) == "connection".spec_bytes(),
        "connection".spec_bytes() != headers::content_length(),
        "connection".spec_bytes() != headers::transfer_encoding(),
        headers::content_length() != headers::transfer_encoding(),
{
    headers::lemma_lower_literals();
    headers::lemma_names_differ();
    reveal_strlit("connection");
    is_ascii_spec_bytes("connection");
}

/// A response whose body has no announced length is sent in chunks to a peer that speaks
/// HTTP/1.1, and to another one until the connection is closed, whatever framing it came with;
/// a response whose length is announced is framed as before.
pub proof fn law_response_framing(c: ConnectionView, response: ResponseView)
    requires
        headers::valid_fields(response.headers),
        framing::has_framing(connection::header_method(c), HeadView::Response(response)),
        connection::cleaned(c, response) is Ok,
    ensures
        ({
            let sent = connection::cleaned(c, response)->Ok_0;
            let method = connection::header_method(c);
            let after = framing::framing(method, HeadView::Response(sent));
            &&& sent.status_code == response.status_code
            &&& sent.reason == response.reason
            &&& sent.http_version == response.http_version
            &&& headers::valid_fields(sent.headers)
            &&& framing::has_framing(method, HeadView::Response(sent))
            &&& connection::is_open_ended(c, response) ==> after == (if connection::peer_is_modern(
                c,
            ) {
                Framing::Chunked
            } else {
                Framing::Http10
            })
            &&& !connection::is_open_ended(c, response) ==> after == framing::framing(
                method,
                HeadView::Response(response),
            )
        }),
{
    let cl = headers::content_length();
    let te = headers::transfer_encoding();
    let con = "connection".spec_bytes();
    let none = Seq::<Seq<u8>>::empty();
    headers::lemma_lower_literals();
    lemma_names();
    let framed = connection::framed_fields(c, response)->Ok_0;
    if connection::is_open_ended(c, response) {
        let first = headers::with_comma_values(response.headers, cl, none)->Ok_0;
        let codings = if connection::peer_is_modern(c) {
            seq!["chunked".spec_bytes()]
        } else {
            none
        };
        law_set_then_get(response.headers, cl, none, te);
        law_replaced_fields(response.headers, cl, none);
        law_set_then_get(first, te, codings, cl);
        law_replaced_fields(first, te, codings);
        if connection::peer_is_modern(c) {
            lemma_chunked_item();
            assert(codings.drop_last() =~= none);
            assert(items_of(codings.drop_last()) =~= none);
            assert(items_of(codings) =~= codings);
        }
    }
    assert(headers::valid_fields(framed));
    if connection::will_close(c, response) {
        let items = connection::closing_items(headers::comma_values(framed, con)).push(
            "close".spec_bytes(),
        );
        law_set_then_get(framed, con, items, cl);
        law_set_then_get(framed, con, items, te);
        law_replaced_fields(framed, con, items);
    }
}

/// A response that will be the last on its connection says so.
pub proof fn law_last_response_says_close(c: ConnectionView, response: ResponseView)
    requires
        headers::valid_fields(response.headers),
        connection::cleaned(c, response) is Ok,
        connection::will_close(c, response),
    ensures
        !framing::keeps_alive(HeadView::Response(connection::cleaned(c, response)->Ok_0)),
{
    let cl = headers::content_length();
    let te = headers::transfer_encoding();
    let con = "connection".spec_bytes();
    let close = "close".spec_bytes();
    let none = Seq::<Seq<u8>>::empty();
    headers::lemma_lower_literals();
    lemma_names();
    let framed = connection::framed_fields(c, response)->Ok_0;
    if connection::is_open_ended(c, response) {
        let first = headers::with_comma_values(response.headers, cl, none)->Ok_0;
        let codings = if connection::peer_is_modern(c) {
            seq!["chunked".spec_bytes()]
        } else {
            none
        };
        law_replaced_fields(response.headers, cl, none);
        law_replaced_fields(first, te, codings);
    }
    let items = connection::closing_items(headers::comma_values(framed, con)).push(close);
    law_set_then_get(framed, con, items, con);
    lemma_close_item();
    let values = items_of(items);
    assert(values.last() == close);
    assert(values.contains(close)) by {
        assert(values[values.len() - 1] == close);
    }
}

proof fn lemma_close_item()
    ensures
        headers::nonempty(headers::list_items(bytes::lowercase("close".spec_bytes()))) == seq![
            "close".spec_bytes(),
        ],
{
    let value = "close".spec_bytes();
    reveal_strlit("close");
    is_ascii_spec_bytes("close");
    assert(bytes::lowercase(value) =~= value);
    assert(!value.contains(bytes::COMMA));
    bytes::lemma_split_whole(value, bytes::COMMA);
    crate::text::lemma_trim_solid(value);
    let items = headers::list_items(value);
    assert(items =~= seq![value]);
    assert(items.drop_last() =~= Seq::<Seq<u8>>::empty());
    assert(headers::nonempty(items.drop_last()) =~= Seq::<Seq<u8>>::empty());
    assert(headers::nonempty(items) =~= seq![value]);
}

} // verus!
