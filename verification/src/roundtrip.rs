//! What is written can be read: the laws that tie the writers to the readers.
use vstd::prelude::*;
use vstd::string::*;
use vstd::utf8::*;

use crate::abnf;
use crate::abnf::{Class, RequestLineView, StatusLineView};
use crate::bytes;
use crate::bytes::{COLON, CR, LF, SP};
use crate::events;
use crate::events::{EventView, RequestView, ResponseView};
use crate::framing;
use crate::headers;
use crate::headers::{Field, Normalized};
use crate::readers;
use crate::readers::{Reading, ReaderView};
use crate::receivebuffer;
use crate::text;
use crate::util::ErrorView;
use crate::writers;

verus! {

/// Whether a line can stand in a block: it is not empty and holds no line feed.
pub open spec fn is_line(s: Seq<u8>) -> bool {
    s.len() > 0 && !s.contains(LF)
}

/// Lines as they are sent, each with its line end.
pub open spec fn joined_lines(lines: Seq<Seq<u8>>) -> Seq<u8>
    decreases lines.len(),
{
    if lines.len() == 0 {
        Seq::empty()
    } else {
        joined_lines(lines.drop_last()) + lines.last() + bytes::crlf()
    }
}

proof fn lemma_joined_append(a: Seq<Seq<u8>>, b: Seq<Seq<u8>>)
    ensures
        joined_lines(a + b) == joined_lines(a) + joined_lines(b),
    decreases b.len(),
{
    if b.len() == 0 {
        assert(a + b =~= a);
        assert(joined_lines(a) + joined_lines(b) =~= joined_lines(a));
    } else {
        lemma_joined_append(a, b.drop_last());
        assert((a + b).drop_last() =~= a + b.drop_last());
        assert(joined_lines(a + b) =~= joined_lines(a) + joined_lines(b));
    }
}

proof fn lemma_joined_first(lines: Seq<Seq<u8>>)
    requires
        lines.len() > 0,
    ensures
        joined_lines(lines) == lines[0] + bytes::crlf() + joined_lines(lines.drop_first()),
{
    let first = seq![lines[0]];
    assert(lines =~= first + lines.drop_first());
    lemma_joined_append(first, lines.drop_first());
    assert(first.drop_last() =~= Seq::<Seq<u8>>::empty());
    assert(joined_lines(first.drop_last()) =~= Seq::<u8>::empty());
    assert(joined_lines(first) =~= lines[0] + bytes::crlf());
}

/// A part without line feeds only delays the first blank line.
pub proof fn lemma_block_len_after(x: Seq<u8>, t: Seq<u8>)
    requires
        !x.contains(LF),
    ensures
        receivebuffer::block_len(x + t) == (match receivebuffer::block_len(t) {
            Some(n) => Some(n + x.len()),
            None => None,
        }),
    decreases x.len(),
{
    if x.len() == 0 {
        assert(x + t =~= t);
    } else {
        let y = x.drop_first();
        assert forall|i: int| 0 <= i < y.len() implies y[i] != LF by {
            assert(x[i + 1] != LF);
        }
        lemma_block_len_after(y, t);
        assert((x + t).drop_first() =~= y + t);
        assert(x[0] != LF);
        assert((x + t)[0] == x[0]);
    }
}

/// The first blank line of a block of lines is the one that ends it.
proof fn lemma_block_len_of_lines(lines: Seq<Seq<u8>>, rest: Seq<u8>)
    requires
        lines.len() > 0,
        forall|i: int| 0 <= i < lines.len() ==> is_line(#[trigger] lines[i]),
    ensures
        receivebuffer::block_len(joined_lines(lines) + bytes::crlf() + rest) == Some(
            joined_lines(lines).len() as int + 2,
        ),
    decreases lines.len(),
{
    let s = joined_lines(lines) + bytes::crlf() + rest;
    let others = lines.drop_first();
    let tail = joined_lines(others) + bytes::crlf() + rest;
    let x = lines[0].push(CR);
    let t = seq![LF] + tail;
    lemma_joined_first(lines);
    assert(is_line(lines[0]));
    assert(s =~= x + t);
    assert forall|i: int| 0 <= i < x.len() implies x[i] != LF by {
        if i < lines[0].len() {
            assert(lines[0][i] != LF);
        }
    }
    lemma_block_len_after(x, t);
    assert(t.drop_first() =~= tail);
    if lines.len() == 1 {
        assert(others =~= Seq::<Seq<u8>>::empty());
        assert(tail =~= bytes::crlf() + rest);
        assert(receivebuffer::blank_len(t) == 3);
    } else {
        let line = others[0];
        assert(line == lines[1]);
        assert forall|i: int| 0 <= i < others.len() implies is_line(#[trigger] others[i]) by {
            assert(others[i] == lines[i + 1]);
        }
        lemma_joined_first(others);
        lemma_block_len_of_lines(others, rest);
        assert(is_line(line));
        assert(tail[0] == line[0]);
        assert(line[0] != LF);
        if line.len() > 1 {
            assert(tail[1] == line[1]);
            assert(line[1] != LF);
        } else {
            assert(tail[1] == CR);
        }
        assert(t[0] == LF && t[1] == tail[0] && t[2] == tail[1]);
        assert(receivebuffer::blank_len(t) == 0);
    }
}

/// The pieces between the line feeds of a block of lines.
proof fn lemma_split_of_lines(lines: Seq<Seq<u8>>)
    requires
        forall|i: int| 0 <= i < lines.len() ==> is_line(#[trigger] lines[i]),
    ensures
        bytes::split(joined_lines(lines) + bytes::crlf(), LF) == lines.map_values(
            |line: Seq<u8>| line.push(CR),
        ) + seq![seq![CR], Seq::<u8>::empty()],
    decreases lines.len(),
{
    let s = joined_lines(lines) + bytes::crlf();
    let pieces = lines.map_values(|line: Seq<u8>| line.push(CR)) + seq![
        seq![CR],
        Seq::<u8>::empty(),
    ];
    if lines.len() == 0 {
        let cr = seq![CR];
        assert(s =~= cr.push(LF) + Seq::<u8>::empty());
        bytes::lemma_split_join(cr, LF, Seq::empty());
        assert(!cr.contains(LF));
        bytes::lemma_split_whole(cr, LF);
        bytes::lemma_split_whole(Seq::empty(), LF);
        assert(bytes::split(s, LF) =~= pieces);
    } else {
        let others = lines.drop_first();
        let tail = joined_lines(others) + bytes::crlf();
        let x = lines[0].push(CR);
        lemma_joined_first(lines);
        assert(s =~= x.push(LF) + tail);
        assert(is_line(lines[0]));
        assert forall|i: int| 0 <= i < x.len() implies x[i] != LF by {
            if i < lines[0].len() {
                assert(lines[0][i] != LF);
            }
        }
        bytes::lemma_split_join(x, LF, tail);
        bytes::lemma_split_whole(x, LF);
        assert forall|i: int| 0 <= i < others.len() implies is_line(#[trigger] others[i]) by {
            assert(others[i] == lines[i + 1]);
        }
        lemma_split_of_lines(others);
        assert(bytes::split(s, LF) =~= pieces);
    }
}

/// A block of lines is read back line by line, and what follows it stays.
pub proof fn law_lines_round_trip(lines: Seq<Seq<u8>>, rest: Seq<u8>)
    requires
        forall|i: int| 0 <= i < lines.len() ==> is_line(#[trigger] lines[i]),
    ensures
        receivebuffer::lines_at(joined_lines(lines) + bytes::crlf() + rest) == Some(
            (lines, joined_lines(lines).len() as int + 2),
        ),
{
    let s = joined_lines(lines) + bytes::crlf() + rest;
    if lines.len() == 0 {
        assert(lines =~= Seq::<Seq<u8>>::empty());
        assert(s =~= bytes::crlf() + rest);
    } else {
        lemma_joined_first(lines);
        let line = lines[0];
        assert(is_line(line));
        assert(s[0] == line[0]);
        assert(line[0] != LF);
        if line.len() > 1 {
            assert(s[1] == line[1]);
            assert(line[1] != LF);
        } else {
            assert(s[1] == CR);
        }
        lemma_block_len_of_lines(lines, rest);
        let n = joined_lines(lines).len() + 2;
        assert(s.take(n as int) =~= joined_lines(lines) + bytes::crlf());
        lemma_split_of_lines(lines);
        assert(receivebuffer::block_lines(s.take(n as int)) =~= lines) by {
            let pieces = bytes::split(s.take(n as int), LF);
            assert(pieces.len() == lines.len() + 2);
            assert forall|i: int| 0 <= i < lines.len() implies receivebuffer::chop_cr(
                #[trigger] pieces[i],
            ) == lines[i] by {
                assert(pieces[i] == lines[i].push(CR));
                assert(lines[i].push(CR).drop_last() =~= lines[i]);
            }
        }
    }
}

/// Header text holds no line feed.
pub proof fn lemma_field_text_is_one_line(s: Seq<u8>)
    requires
        abnf::field_text_len(s) == s.len(),
    ensures
        !s.contains(LF),
    decreases s.len(),
{
    broadcast use utf8_byte_ranges_bitwise;

    if s.len() > 0 {
        let t = pop_first_scalar(s);
        let n = length_of_first_scalar(s);
        abnf::lemma_field_text_len(t);
        lemma_field_text_is_one_line(t);
        assert forall|i: int| 0 <= i < s.len() implies s[i] != LF by {
            if i >= n {
                assert(s[i] == t[i - n]);
            } else if s[0] < 128 {
                text::lemma_ascii_scalar(s);
            } else {
                assert(s[i] >= 128);
            }
        }
    }
}

/// Whether the names and the values of fields are such as may be sent.
pub open spec fn are_sendable(fields: Seq<Field>) -> bool {
    forall|i: int|
        0 <= i < fields.len() ==> abnf::is_token((#[trigger] fields[i]).raw_name)
            && abnf::is_field_value(fields[i].value)
}

/// The fields that are hosts, or those that are not, in order.
pub open spec fn chosen(fields: Seq<Field>, hosts: bool) -> Seq<Field>
    decreases fields.len(),
{
    if fields.len() == 0 {
        Seq::empty()
    } else if writers::is_host(fields.last()) == hosts {
        chosen(fields.drop_last(), hosts).push(fields.last())
    } else {
        chosen(fields.drop_last(), hosts)
    }
}

/// The fields with the host first, and otherwise in order.
pub open spec fn host_first(fields: Seq<Field>) -> Seq<Field> {
    chosen(fields, true) + chosen(fields, false)
}

/// Where the host is first already, nothing changes.
pub proof fn law_host_first_keeps_order(fields: Seq<Field>)
    requires
        forall|i: int, j: int|
            0 <= i < j < fields.len() && writers::is_host(#[trigger] fields[j])
                ==> writers::is_host(#[trigger] fields[i]),
    ensures
        host_first(fields) == fields,
    decreases fields.len(),
{
    if fields.len() > 0 {
        let front = fields.drop_last();
        assert forall|i: int, j: int|
            0 <= i < j < front.len() && writers::is_host(
                #[trigger] front[j],
            ) implies writers::is_host(#[trigger] front[i]) by {
            assert(writers::is_host(fields[j]));
            assert(writers::is_host(fields[i]));
        }
        law_host_first_keeps_order(front);
        if writers::is_host(fields.last()) {
            assert forall|i: int| 0 <= i < front.len() implies writers::is_host(
                #[trigger] front[i],
            ) by {
                assert(writers::is_host(fields[fields.len() - 1]));
                assert(writers::is_host(fields[i]));
            }
            lemma_chosen_none(front, false);
            assert(host_first(front) =~= chosen(front, true));
        }
        assert(host_first(fields) =~= host_first(front).push(fields.last()));
        assert(front.push(fields.last()) =~= fields);
    } else {
        assert(host_first(fields) =~= fields);
    }
}

proof fn lemma_chosen_none(fields: Seq<Field>, hosts: bool)
    requires
        forall|i: int| 0 <= i < fields.len() ==> writers::is_host(#[trigger] fields[i]) != hosts,
    ensures
        chosen(fields, hosts) == Seq::<Field>::empty(),
    decreases fields.len(),
{
    if fields.len() > 0 {
        assert(writers::is_host(fields[fields.len() - 1]) != hosts);
        assert forall|i: int| 0 <= i < fields.drop_last().len() implies writers::is_host(
            #[trigger] fields.drop_last()[i],
        ) != hosts by {
            assert(writers::is_host(fields[i]) != hosts);
        }
        lemma_chosen_none(fields.drop_last(), hosts);
    }
}

/// The fields that were chosen are among the fields, and of the right sort.
pub proof fn lemma_chosen(fields: Seq<Field>, hosts: bool)
    ensures
        forall|i: int|
            0 <= i < chosen(fields, hosts).len() ==> fields.contains(
                #[trigger] chosen(fields, hosts)[i],
            ) && writers::is_host(chosen(fields, hosts)[i]) == hosts,
    decreases fields.len(),
{
    if fields.len() > 0 {
        let front = fields.drop_last();
        lemma_chosen(front, hosts);
        let all = chosen(fields, hosts);
        let before = chosen(front, hosts);
        assert forall|i: int| 0 <= i < all.len() implies fields.contains(#[trigger] all[i])
            && writers::is_host(all[i]) == hosts by {
            if i < before.len() {
                assert(all[i] == before[i]);
                assert(front.contains(before[i]));
                let j = front.index_of(before[i]);
                assert(fields[j] == all[i]);
            } else {
                assert(fields[fields.len() - 1] == all[i]);
            }
        }
    }
}

proof fn lemma_chosen_valid(fields: Seq<Field>, hosts: bool)
    requires
        headers::valid_fields(fields),
    ensures
        headers::valid_fields(chosen(fields, hosts)),
    decreases fields.len(),
{
    if fields.len() > 0 {
        let front = fields.drop_last();
        assert(headers::valid_fields(front)) by {
            assert forall|i: int| 0 <= i < front.len() implies #[trigger] front[i]
                == fields[i] by {}
        }
        lemma_chosen_valid(front, hosts);
        lemma_chosen(front, hosts);
        let before = chosen(front, hosts);
        if writers::is_host(fields.last()) == hosts {
            let last = fields.len() - 1;
            assert(fields[last] == fields.last());
            assert forall|i: int| 0 <= i < before.len() implies !((#[trigger] before[i]).name
                == headers::content_length() && fields.last().name == headers::content_length())
                && !(before[i].name == headers::transfer_encoding() && fields.last().name
                == headers::transfer_encoding()) by {
                assert(front.contains(before[i]));
                let j = front.index_of(before[i]);
                assert(fields[j] == before[i]);
            }
        }
    }
}

proof fn lemma_host_is_no_framing()
    ensures
        "host".spec_bytes() != headers::content_length(),
        "host".spec_bytes() != headers::transfer_encoding(),
{
    headers::lemma_names_differ();
    reveal_strlit("host");
    is_ascii_spec_bytes("host");
}

/// Putting the host first keeps fields valid and sendable.
pub proof fn lemma_host_first_valid(fields: Seq<Field>)
    requires
        headers::valid_fields(fields),
    ensures
        headers::valid_fields(host_first(fields)),
        are_sendable(fields) ==> are_sendable(host_first(fields)),
{
    lemma_host_is_no_framing();
    lemma_chosen(fields, true);
    lemma_chosen(fields, false);
    lemma_chosen_valid(fields, true);
    lemma_chosen_valid(fields, false);
    let a = chosen(fields, true);
    let b = chosen(fields, false);
    let all = host_first(fields);
    assert forall|i: int| 0 <= i < all.len() implies #[trigger] all[i] == (if i < a.len() {
        a[i]
    } else {
        b[i - a.len()]
    }) by {}
    if are_sendable(fields) {
        assert forall|i: int| 0 <= i < all.len() implies abnf::is_token(
            (#[trigger] all[i]).raw_name,
        ) && abnf::is_field_value(all[i].value) by {
            assert(fields.contains(all[i]));
            let j = fields.index_of(all[i]);
            assert(fields[j] == all[i]);
        }
    }
}

/// The text of a field's line.
pub open spec fn field_text(f: Field) -> Seq<u8> {
    f.raw_name + seq![COLON, SP] + f.value
}

pub open spec fn field_texts(fields: Seq<Field>) -> Seq<Seq<u8>> {
    fields.map_values(|f: Field| field_text(f))
}

/// The names as they were written, and the values.
pub open spec fn raw_pairs(fields: Seq<Field>) -> Seq<(Seq<u8>, Seq<u8>)> {
    fields.map_values(|f: Field| (f.raw_name, f.value))
}

proof fn lemma_field_lines(fields: Seq<Field>, hosts: bool)
    ensures
        writers::field_lines(fields, hosts) == joined_lines(field_texts(chosen(fields, hosts))),
    decreases fields.len(),
{
    if fields.len() > 0 {
        lemma_field_lines(fields.drop_last(), hosts);
        if writers::is_host(fields.last()) == hosts {
            let texts = field_texts(chosen(fields, hosts));
            assert(texts.drop_last() =~= field_texts(chosen(fields.drop_last(), hosts)));
            assert(texts.last() == field_text(fields.last()));
            assert(writers::field_lines(fields, hosts) =~= joined_lines(texts));
        }
    } else {
        assert(field_texts(chosen(fields, hosts)) =~= Seq::<Seq<u8>>::empty());
    }
}

/// Written fields are lines.
proof fn lemma_written_headers(fields: Seq<Field>)
    ensures
        writers::written_headers(fields) == joined_lines(field_texts(host_first(fields)))
            + bytes::crlf(),
{
    lemma_field_lines(fields, true);
    lemma_field_lines(fields, false);
    lemma_joined_append(field_texts(chosen(fields, true)), field_texts(chosen(fields, false)));
    assert(field_texts(host_first(fields)) =~= field_texts(chosen(fields, true)) + field_texts(
        chosen(fields, false),
    ));
}

/// The line of a field is read back.
pub proof fn law_field_round_trip(f: Field)
    requires
        abnf::is_token(f.raw_name),
        abnf::is_field_value(f.value),
    ensures
        is_line(field_text(f)),
        bytes::ows_len(field_text(f)) == 0,
        abnf::header_field(field_text(f)) == Some((f.raw_name, f.value)),
{
    let line = field_text(f);
    let n = f.raw_name.len() as int;
    assert forall|i: int| 0 <= i < n implies abnf::in_class(Class::Token, #[trigger] line[i]) by {
        assert(abnf::in_class(Class::Token, f.raw_name[i]));
        assert(line[i] == f.raw_name[i]);
    }
    assert(line[n] == COLON);
    abnf::lemma_run_is(line, Class::Token, n as nat);
    assert(line.take(n) =~= f.raw_name);
    let spaced = line.skip(n + 1);
    assert(spaced =~= seq![SP] + f.value);
    assert forall|i: int| 0 <= i < 1 implies bytes::is_ows(#[trigger] spaced[i]) by {}
    if f.value.len() > 0 {
        assert(spaced[1] == f.value[0]);
    }
    bytes::lemma_ows_len_is(spaced, 1);
    assert(spaced.skip(1) =~= f.value);
    assert(bytes::strip_ows(spaced) == f.value);
    lemma_field_text_is_one_line(f.value);
    assert forall|i: int| 0 <= i < line.len() implies line[i] != LF by {
        if i < n {
            assert(abnf::in_class(Class::Token, line[i]));
        } else if i >= n + 2 {
            assert(line[i] == f.value[i - n - 2]);
        }
    }
    assert(abnf::in_class(Class::Token, line[0]));
}

proof fn lemma_nothing_to_unfold(lines: Seq<Seq<u8>>)
    requires
        forall|i: int| 0 <= i < lines.len() ==> bytes::ows_len(#[trigger] lines[i]) == 0,
    ensures
        readers::unfolded(lines) == Ok::<Seq<Seq<u8>>, ErrorView>(lines),
    decreases lines.len(),
{
    if lines.len() > 0 {
        assert forall|i: int| 0 <= i < lines.drop_last().len() implies bytes::ows_len(
            #[trigger] lines.drop_last()[i],
        ) == 0 by {
            assert(bytes::ows_len(lines[i]) == 0);
        }
        lemma_nothing_to_unfold(lines.drop_last());
        assert(bytes::ows_len(lines[lines.len() - 1]) == 0);
        assert(lines.drop_last().push(lines.last()) =~= lines);
    } else {
        assert(lines =~= Seq::<Seq<u8>>::empty());
    }
}

proof fn lemma_fields_of_texts(fields: Seq<Field>)
    requires
        are_sendable(fields),
    ensures
        readers::fields_of(field_texts(fields)) == Ok::<Seq<(Seq<u8>, Seq<u8>)>, ErrorView>(
            raw_pairs(fields),
        ),
    decreases fields.len(),
{
    if fields.len() > 0 {
        let front = fields.drop_last();
        assert(are_sendable(front)) by {
            assert forall|i: int| 0 <= i < front.len() implies #[trigger] front[i]
                == fields[i] by {}
        }
        lemma_fields_of_texts(front);
        assert(abnf::is_token(fields[fields.len() - 1].raw_name));
        law_field_round_trip(fields.last());
        assert(field_texts(fields).drop_last() =~= field_texts(front));
        assert(field_texts(fields).last() == field_text(fields.last()));
        assert(raw_pairs(fields) =~= raw_pairs(front).push(
            (fields.last().raw_name, fields.last().value),
        ));
    } else {
        assert(raw_pairs(fields) =~= Seq::<(Seq<u8>, Seq<u8>)>::empty());
    }
}

/// What the record of normalized fields says is true of the fields.
pub open spec fn is_backed(n: Normalized) -> bool {
    &&& n.content_length is Some ==> exists|i: int|
        0 <= i < n.fields.len() && (#[trigger] n.fields[i]).name == headers::content_length()
    &&& n.transfer_encoding ==> exists|i: int|
        0 <= i < n.fields.len() && (#[trigger] n.fields[i]).name == headers::transfer_encoding()
}

pub proof fn lemma_normalize_again(fields: Seq<Field>, parsed: bool)
    requires
        headers::valid_fields(fields),
        parsed || are_sendable(fields),
    ensures
        headers::normalize(raw_pairs(fields), parsed) is Ok,
        headers::normalize(raw_pairs(fields), parsed)->Ok_0.fields == fields,
        is_backed(headers::normalize(raw_pairs(fields), parsed)->Ok_0),
    decreases fields.len(),
{
    if fields.len() > 0 {
        let front = fields.drop_last();
        let last = fields.last();
        assert(fields[fields.len() - 1] == last);
        assert forall|i: int| 0 <= i < front.len() implies #[trigger] front[i] == fields[i] by {}
        lemma_normalize_again(front, parsed);
        assert(raw_pairs(fields).drop_last() =~= raw_pairs(front));
        assert(raw_pairs(fields).last() == (last.raw_name, last.value));
        let before = headers::normalize(raw_pairs(front), parsed)->Ok_0;
        headers::lemma_names_differ();
        assert(before.fields.push(last) =~= fields);
        if last.name == headers::content_length() {
            framing::lemma_number_list(last.value);
            assert(before.content_length is None);
        } else if last.name == headers::transfer_encoding() {
            headers::lemma_lower_literals();
            assert(!before.transfer_encoding);
        }
        let after = headers::normalize(raw_pairs(fields), parsed)->Ok_0;
        assert(after.fields == fields);
        assert(forall|i: int| 0 <= i < front.len() ==> fields[i] == #[trigger] before.fields[i]);
    } else {
        assert(raw_pairs(fields) =~= Seq::<(Seq<u8>, Seq<u8>)>::empty());
        assert(fields =~= Seq::<Field>::empty());
    }
}

/// Normalized fields stay as they are when they are normalized again.
pub proof fn law_normalizing_is_idempotent(headers: Seq<(Seq<u8>, Seq<u8>)>, parsed: bool)
    requires
        headers::normalize(headers, parsed) is Ok,
    ensures
        headers::normalize(
            raw_pairs(headers::normalize(headers, parsed)->Ok_0.fields),
            parsed,
        ) is Ok,
        headers::normalize(
            raw_pairs(headers::normalize(headers, parsed)->Ok_0.fields),
            parsed,
        )->Ok_0.fields == headers::normalize(headers, parsed)->Ok_0.fields,
{
    headers::lemma_normalize_valid(headers, parsed);
    if !parsed {
        lemma_normalized_sendable(headers);
    }
    lemma_normalize_again(headers::normalize(headers, parsed)->Ok_0.fields, parsed);
}

pub proof fn lemma_ascii_field_value(s: Seq<u8>)
    requires
        forall|i: int| 0 <= i < s.len() ==> 0x21 <= #[trigger] s[i] <= 0x7e,
    ensures
        abnf::is_field_value(s),
{
    lemma_ascii_field_text(s);
}

proof fn lemma_ascii_field_text(s: Seq<u8>)
    requires
        forall|i: int| 0 <= i < s.len() ==> 0x21 <= #[trigger] s[i] <= 0x7e,
    ensures
        abnf::field_text_len(s) == s.len(),
    decreases s.len(),
{
    if s.len() > 0 {
        text::lemma_ascii_scalar(s);
        lemma_ascii_field_text(s.drop_first());
    }
}

/// Fields that were checked are sendable.
pub proof fn lemma_normalized_sendable(headers: Seq<(Seq<u8>, Seq<u8>)>)
    requires
        headers::normalize(headers, false) is Ok,
    ensures
        are_sendable(headers::normalize(headers, false)->Ok_0.fields),
    decreases headers.len(),
{
    if headers.len() > 0 {
        lemma_normalized_sendable(headers.drop_last());
        let before = headers::normalize(headers.drop_last(), false)->Ok_0;
        let after = headers::normalize(headers, false)->Ok_0;
        assert forall|i: int| 0 <= i < after.fields.len() implies abnf::is_token(
            (#[trigger] after.fields[i]).raw_name,
        ) && abnf::is_field_value(after.fields[i].value) by {
            if i < before.fields.len() {
                assert(after.fields[i] == before.fields[i]);
            } else {
                let f = after.fields[i];
                if f.name == headers::content_length() {
                    assert forall|j: int| 0 <= j < f.value.len() implies 0x21
                        <= #[trigger] f.value[j] <= 0x7e by {
                        assert(bytes::is_digit(f.value[j]));
                    }
                    lemma_ascii_field_value(f.value);
                } else if f.name == headers::transfer_encoding() {
                    reveal_strlit("chunked");
                    is_ascii_spec_bytes("chunked");
                    lemma_ascii_field_value("chunked".spec_bytes());
                }
            }
        }
    }
}

/// The lines of fields are read back as the fields, the host first.
pub proof fn law_fields_round_trip(fields: Seq<Field>)
    requires
        headers::valid_fields(fields),
        are_sendable(fields),
    ensures
        readers::parsed_fields(field_texts(host_first(fields))) == Ok::<Seq<Field>, ErrorView>(
            host_first(fields),
        ),
        forall|i: int|
            0 <= i < fields.len() ==> is_line(#[trigger] field_texts(host_first(fields))[i]),
        field_texts(host_first(fields)).len() == fields.len(),
{
    let sorted = host_first(fields);
    lemma_host_first_valid(fields);
    lemma_host_first_len(fields);
    assert forall|i: int| 0 <= i < sorted.len() implies bytes::ows_len(
        #[trigger] field_texts(sorted)[i],
    ) == 0 && is_line(field_texts(sorted)[i]) by {
        assert(abnf::is_token(sorted[i].raw_name));
        law_field_round_trip(sorted[i]);
    }
    lemma_nothing_to_unfold(field_texts(sorted));
    lemma_fields_of_texts(sorted);
    lemma_normalize_again(sorted, true);
}

proof fn lemma_host_first_len(fields: Seq<Field>)
    ensures
        host_first(fields).len() == fields.len(),
    decreases fields.len(),
{
    if fields.len() > 0 {
        lemma_host_first_len(fields.drop_last());
    }
}

proof fn lemma_host_count_append(a: Seq<Field>, b: Seq<Field>)
    ensures
        events::host_count(a + b) == events::host_count(a) + events::host_count(b),
    decreases b.len(),
{
    if b.len() == 0 {
        assert(a + b =~= a);
    } else {
        lemma_host_count_append(a, b.drop_last());
        assert((a + b).drop_last() =~= a + b.drop_last());
    }
}

proof fn lemma_host_count_chosen(fields: Seq<Field>)
    ensures
        events::host_count(chosen(fields, true)) == events::host_count(fields),
        events::host_count(chosen(fields, false)) == 0,
    decreases fields.len(),
{
    if fields.len() > 0 {
        lemma_host_count_chosen(fields.drop_last());
        let hosts = writers::is_host(fields.last());
        assert(chosen(fields, hosts).drop_last() =~= chosen(fields.drop_last(), hosts));
    }
}

proof fn lemma_host_count_first(fields: Seq<Field>)
    ensures
        events::host_count(host_first(fields)) == events::host_count(fields),
{
    lemma_host_count_append(chosen(fields, true), chosen(fields, false));
    lemma_host_count_chosen(fields);
}

pub proof fn lemma_version_literals()
    ensures
        " HTTP/1.1".spec_bytes() == seq![SP, 72u8, 84, 84, 80, 47, 49, 46, 49],
        "HTTP/1.1 ".spec_bytes() == seq![72u8, 84, 84, 80, 47, 49, 46, 49, SP],
        "HTTP/".spec_bytes() == seq![72u8, 84, 84, 80, 47],
        "1.1".spec_bytes() == seq![49u8, 46, 49],
        "0".spec_bytes() == seq![48u8],
{
    reveal_strlit(" HTTP/1.1");
    reveal_strlit("HTTP/1.1 ");
    reveal_strlit("HTTP/");
    reveal_strlit("1.1");
    reveal_strlit("0");
    is_ascii_spec_bytes(" HTTP/1.1");
    is_ascii_spec_bytes("HTTP/1.1 ");
    is_ascii_spec_bytes("HTTP/");
    is_ascii_spec_bytes("1.1");
    is_ascii_spec_bytes("0");
    assert(" HTTP/1.1".spec_bytes() =~= seq![SP, 72u8, 84, 84, 80, 47, 49, 46, 49]);
    assert("HTTP/1.1 ".spec_bytes() =~= seq![72u8, 84, 84, 80, 47, 49, 46, 49, SP]);
    assert("HTTP/".spec_bytes() =~= seq![72u8, 84, 84, 80, 47]);
    assert("1.1".spec_bytes() =~= seq![49u8, 46, 49]);
    assert("0".spec_bytes() =~= seq![48u8]);
}

/// The first line of a request.
pub open spec fn request_text(r: RequestView) -> Seq<u8> {
    r.method + seq![SP] + r.target + " HTTP/1.1".spec_bytes()
}

proof fn lemma_request_line(r: RequestView)
    requires
        abnf::is_token(r.method),
        abnf::is_request_target(r.target),
    ensures
        is_line(request_text(r)),
        abnf::request_line(request_text(r)) == Some(
            RequestLineView {
                method: r.method,
                target: r.target,
                http_version: "1.1".spec_bytes(),
            },
        ),
{
    lemma_version_literals();
    let s = request_text(r);
    let m = r.method.len() as int;
    let n = r.target.len() as int;
    assert forall|i: int| 0 <= i < m implies abnf::in_class(Class::Token, #[trigger] s[i]) by {
        assert(abnf::in_class(Class::Token, r.method[i]));
        assert(s[i] == r.method[i]);
    }
    assert(s[m] == SP);
    abnf::lemma_run_is(s, Class::Token, m as nat);
    assert(s.take(m) =~= r.method);
    let t = s.skip(m + 1);
    assert(t =~= r.target + " HTTP/1.1".spec_bytes());
    assert forall|i: int| 0 <= i < n implies abnf::in_class(Class::Visible, #[trigger] t[i]) by {
        assert(abnf::in_class(Class::Visible, r.target[i]));
        assert(t[i] == r.target[i]);
    }
    assert(t[n] == SP);
    abnf::lemma_run_is(t, Class::Visible, n as nat);
    assert(t.take(n) =~= r.target);
    let v = t.skip(n + 1);
    assert(v =~= seq![72u8, 84, 84, 80, 47, 49, 46, 49]);
    assert(v.take(5) =~= "HTTP/".spec_bytes());
    assert(v.subrange(5, 8) =~= "1.1".spec_bytes());
    assert forall|i: int| 0 <= i < s.len() implies s[i] != LF by {
        if i < m {
            assert(abnf::in_class(Class::Token, s[i]));
        } else if m < i && i - m - 1 < n {
            assert(abnf::in_class(Class::Visible, t[i - m - 1]));
        } else if i > m {
            assert(s[i] == " HTTP/1.1".spec_bytes()[i - m - 1 - n]);
        }
    }
}

/// Whether a request is one that can be made and sent.
pub open spec fn is_sendable_request(r: RequestView) -> bool {
    &&& events::request_error(r) is None
    &&& r.http_version == "1.1".spec_bytes()
    &&& headers::valid_fields(r.headers)
    &&& are_sendable(r.headers)
}

/// A request that is sent is the request that is received, with its host first; what follows it
/// stays in the buffer.
pub proof fn law_request_round_trip(r: RequestView, rest: Seq<u8>)
    requires
        is_sendable_request(r),
    ensures
        writers::written_request(r) is Ok,
        readers::read_request(writers::written_request(r)->Ok_0 + rest) == (Reading {
            reader: ReaderView::IdleClient,
            buffer: rest,
            result: Ok(
                Some(EventView::Request(RequestView { headers: host_first(r.headers), ..r })),
            ),
        }),
{
    let texts = field_texts(host_first(r.headers));
    let lines = seq![request_text(r)] + texts;
    let buffer = writers::written_request(r)->Ok_0 + rest;
    lemma_request_line(r);
    law_fields_round_trip(r.headers);
    lemma_written_headers(r.headers);
    lemma_joined_first(lines);
    assert(lines.drop_first() =~= texts);
    assert(lines.skip(1) =~= texts);
    assert(buffer =~= joined_lines(lines) + bytes::crlf() + rest);
    assert forall|i: int| 0 <= i < lines.len() implies is_line(#[trigger] lines[i]) by {
        if i > 0 {
            assert(lines[i] == texts[i - 1]);
        }
    }
    law_lines_round_trip(lines, rest);
    assert(buffer.skip(joined_lines(lines).len() as int + 2) =~= rest);
    lemma_host_count_first(r.headers);
}

/// The number that decimal digits stand for is the number that was written.
pub proof fn law_decimal_round_trip(n: nat)
    ensures
        bytes::digits_value(bytes::decimal(n), 10) == n,
        bytes::is_digits(bytes::decimal(n)),
    decreases n,
{
    let s = bytes::decimal(n);
    if n < 10 {
        assert(s.drop_last() =~= Seq::<u8>::empty());
        assert(bytes::digits_value(s.drop_last(), 10) == 0);
    } else {
        law_decimal_round_trip(n / 10);
        assert(s.drop_last() =~= bytes::decimal(n / 10));
        assert forall|i: int| 0 <= i < s.len() implies bytes::is_digit(#[trigger] s[i]) by {
            if i < s.len() - 1 {
                assert(s[i] == bytes::decimal(n / 10)[i]);
            }
        }
    }
}

/// The number that hexadecimal digits stand for is the number that was written.
pub proof fn law_hexadecimal_round_trip(n: nat)
    ensures
        bytes::digits_value(bytes::hexadecimal(n), 16) == n,
        abnf::is_run(bytes::hexadecimal(n), Class::HexDigit),
    decreases n,
{
    let s = bytes::hexadecimal(n);
    if n < 16 {
        assert(s.drop_last() =~= Seq::<u8>::empty());
        assert(bytes::digits_value(s.drop_last(), 16) == 0);
    } else {
        law_hexadecimal_round_trip(n / 16);
        assert(s.drop_last() =~= bytes::hexadecimal(n / 16));
        assert forall|i: int| 0 <= i < s.len() implies abnf::in_class(
            Class::HexDigit,
            #[trigger] s[i],
        ) by {
            if i < s.len() - 1 {
                assert(s[i] == bytes::hexadecimal(n / 16)[i]);
                assert(abnf::in_class(Class::HexDigit, bytes::hexadecimal(n / 16)[i]));
            }
        }
    }
}

/// The first line of a response.
pub open spec fn status_text(r: ResponseView) -> Seq<u8> {
    "HTTP/1.1 ".spec_bytes() + bytes::decimal(r.status_code as nat) + seq![SP] + r.reason
}

proof fn lemma_status_line(r: ResponseView)
    requires
        100 <= r.status_code <= 999,
        abnf::field_text_len(r.reason) == r.reason.len(),
    ensures
        is_line(status_text(r)),
        abnf::status_line(status_text(r)) == Some(
            StatusLineView {
                http_version: "1.1".spec_bytes(),
                status_code: bytes::decimal(r.status_code as nat),
                reason: Some(r.reason),
            },
        ),
{
    lemma_version_literals();
    let s = status_text(r);
    let n = r.status_code as nat;
    let code = bytes::decimal(n);
    law_decimal_round_trip(n);
    reveal_with_fuel(bytes::decimal, 3);
    assert(code.len() == 3);
    assert(s.take(5) =~= "HTTP/".spec_bytes());
    assert(s[5] == 49 && s[6] == 46 && s[7] == 49 && s[8] == SP);
    assert(s.subrange(9, 12) =~= code);
    assert(s.subrange(5, 8) =~= "1.1".spec_bytes());
    assert(s[12] == SP);
    assert(s.skip(13) =~= r.reason);
    assert(r.reason.take(r.reason.len() as int) =~= r.reason);
    lemma_field_text_is_one_line(r.reason);
    assert forall|i: int| 0 <= i < s.len() implies s[i] != LF by {
        if 9 <= i < 12 {
            assert(s[i] == code[i - 9]);
            assert(bytes::is_digit(code[i - 9]));
        } else if i >= 13 {
            assert(s[i] == r.reason[i - 13]);
        } else if i < 9 {
            assert(s[i] == "HTTP/1.1 ".spec_bytes()[i]);
        }
    }
}

/// Whether a response is one whose head can be read back: a code of three digits, and a reason
/// of header text.
pub open spec fn is_sendable_response(r: ResponseView) -> bool {
    &&& 100 <= r.status_code <= 999
    &&& abnf::field_text_len(r.reason) == r.reason.len()
    &&& r.http_version == "1.1".spec_bytes()
    &&& headers::valid_fields(r.headers)
    &&& are_sendable(r.headers)
}

/// A response that is sent is the response that is received, with a `Host` field, if it has one,
/// first; what follows it stays in the buffer.
pub proof fn law_response_round_trip(r: ResponseView, rest: Seq<u8>)
    requires
        is_sendable_response(r),
    ensures
        writers::written_response(r) is Ok,
        readers::can_read(
            ReaderView::SendResponseServer,
            writers::written_response(r)->Ok_0 + rest,
        ),
        readers::read_response(writers::written_response(r)->Ok_0 + rest) == (Reading {
            reader: ReaderView::SendResponseServer,
            buffer: rest,
            result: Ok(
                Some(
                    readers::response_event(ResponseView { headers: host_first(r.headers), ..r }),
                ),
            ),
        }),
{
    let texts = field_texts(host_first(r.headers));
    let lines = seq![status_text(r)] + texts;
    let buffer = writers::written_response(r)->Ok_0 + rest;
    lemma_status_line(r);
    law_decimal_round_trip(r.status_code as nat);
    law_fields_round_trip(r.headers);
    lemma_written_headers(r.headers);
    lemma_joined_first(lines);
    assert(lines.drop_first() =~= texts);
    assert(lines.skip(1) =~= texts);
    assert(buffer =~= joined_lines(lines) + bytes::crlf() + rest);
    assert forall|i: int| 0 <= i < lines.len() implies is_line(#[trigger] lines[i]) by {
        if i > 0 {
            assert(lines[i] == texts[i - 1]);
        }
    }
    law_lines_round_trip(lines, rest);
    assert(buffer.skip(joined_lines(lines).len() as int + 2) =~= rest);
}

spec fn power16(k: nat) -> nat
    decreases k,
{
    if k == 0 {
        1
    } else {
        16 * power16((k - 1) as nat)
    }
}

proof fn lemma_hexadecimal_len(n: nat, k: nat)
    requires
        n < power16(k),
        k > 0,
    ensures
        1 <= bytes::hexadecimal(n).len() <= k,
    decreases k,
{
    if n >= 16 {
        reveal_with_fuel(power16, 2);
        assert(k > 1);
        lemma_hexadecimal_len(n / 16, (k - 1) as nat);
    }
}

/// The size of a chunk is read back.
proof fn lemma_chunk_header(n: nat, rest: Seq<u8>)
    requires
        n <= usize::MAX,
    ensures
        receivebuffer::line_len(bytes::hexadecimal(n) + bytes::crlf() + rest) == Some(
            bytes::hexadecimal(n).len() as int + 2,
        ),
        abnf::chunk_header(bytes::hexadecimal(n) + bytes::crlf()) == Some(bytes::hexadecimal(n)),
{
    let size = bytes::hexadecimal(n);
    let s = size + bytes::crlf() + rest;
    let line = size + bytes::crlf();
    law_hexadecimal_round_trip(n);
    assert(power16(16) == 0x1_0000_0000_0000_0000) by {
        reveal_with_fuel(power16, 17);
    }
    lemma_hexadecimal_len(n, 16);
    assert forall|i: int| 0 <= i < size.len() implies !#[trigger] receivebuffer::crlf_at(s, i) by {
        assert(abnf::in_class(Class::HexDigit, size[i]));
        assert(s[i] == size[i]);
    }
    receivebuffer::lemma_line_len_is(s, size.len() as int);
    assert forall|i: int| 0 <= i < size.len() implies abnf::in_class(
        Class::HexDigit,
        #[trigger] line[i],
    ) by {
        assert(abnf::in_class(Class::HexDigit, size[i]));
        assert(line[i] == size[i]);
    }
    assert(line[size.len() as int] == CR);
    abnf::lemma_run_is(line, Class::HexDigit, size.len());
    assert(line.take(size.len() as int) =~= size);
    let tail = line.skip(size.len() as int);
    assert(tail =~= bytes::crlf());
    bytes::lemma_ows_len_is(tail, 0);
}

/// A chunk that is sent is received as one piece of data, marked as a whole chunk. Before it the
/// reader drops the line end of the chunk before.
pub proof fn law_chunk_round_trip(data: Seq<u8>, gap: Seq<u8>, rest: Seq<u8>)
    requires
        0 < data.len() <= usize::MAX,
    ensures
        writers::written_data(writers::WriterView::Chunked, data).1 is Ok,
        readers::reading(
            ReaderView::Chunked {
                bytes_in_chunk: 0,
                bytes_to_discard: gap.len(),
                reading_trailer: false,
            },
            gap + writers::written_data(writers::WriterView::Chunked, data).1->Ok_0 + rest,
        ) == (Reading {
            reader: ReaderView::Chunked {
                bytes_in_chunk: 0,
                bytes_to_discard: 2,
                reading_trailer: false,
            },
            buffer: bytes::crlf() + rest,
            result: Ok(
                Some(
                    EventView::Data(
                        events::DataView { data, chunk_start: true, chunk_end: true },
                    ),
                ),
            ),
        }),
{
    let size = bytes::hexadecimal(data.len());
    let chunk = writers::written_data(writers::WriterView::Chunked, data).1->Ok_0;
    let buffer = gap + chunk + rest;
    let after = data + bytes::crlf() + rest;
    let start = size + bytes::crlf() + after;
    law_hexadecimal_round_trip(data.len());
    lemma_chunk_header(data.len(), after);
    assert(buffer.skip(gap.len() as int) =~= start);
    assert(start.take(size.len() as int + 2) =~= size + bytes::crlf());
    assert(start.skip(size.len() as int + 2) =~= after);
    assert(after.take(data.len() as int) =~= data);
    assert(after.skip(data.len() as int) =~= bytes::crlf() + rest);
}

/// The end of a body in chunks is received with its trailing fields, a host first.
pub proof fn law_chunked_end_round_trip(fields: Seq<Field>, gap: Seq<u8>, rest: Seq<u8>)
    requires
        headers::valid_fields(fields),
        are_sendable(fields),
    ensures
        writers::written_end(writers::WriterView::Chunked, fields) is Ok,
        readers::reading(
            ReaderView::Chunked {
                bytes_in_chunk: 0,
                bytes_to_discard: gap.len(),
                reading_trailer: false,
            },
            gap + writers::written_end(writers::WriterView::Chunked, fields)->Ok_0 + rest,
        ) == (Reading {
            reader: ReaderView::Chunked {
                bytes_in_chunk: 0,
                bytes_to_discard: 0,
                reading_trailer: true,
            },
            buffer: rest,
            result: Ok(Some(EventView::EndOfMessage(host_first(fields)))),
        }),
{
    let end = writers::written_end(writers::WriterView::Chunked, fields)->Ok_0;
    let buffer = gap + end + rest;
    let texts = field_texts(host_first(fields));
    let after = joined_lines(texts) + bytes::crlf() + rest;
    let size = bytes::hexadecimal(0);
    let start = size + bytes::crlf() + after;
    lemma_version_literals();
    assert(size =~= "0".spec_bytes());
    law_hexadecimal_round_trip(0);
    lemma_chunk_header(0, after);
    lemma_written_headers(fields);
    law_fields_round_trip(fields);
    assert(buffer.skip(gap.len() as int) =~= start);
    assert(start.take(size.len() as int + 2) =~= size + bytes::crlf());
    assert(start.skip(size.len() as int + 2) =~= after);
    assert forall|i: int| 0 <= i < texts.len() implies is_line(#[trigger] texts[i]) by {}
    law_lines_round_trip(texts, rest);
    assert(after.skip(joined_lines(texts).len() as int + 2) =~= rest);
}

/// A piece of a body whose length was announced is received as it was sent, and the writer and
/// the reader count the same. Its end is seen as soon as nothing is left.
pub proof fn law_content_length_round_trip(length: nat, remaining: nat, data: Seq<u8>)
    requires
        0 < data.len() <= remaining <= length,
    ensures
        writers::written_data(
            writers::WriterView::ContentLength { length: remaining as int },
            data,
        ) == (
            writers::WriterView::ContentLength { length: remaining - data.len() },
            Ok::<Seq<u8>, ErrorView>(data),
        ),
        readers::reading(ReaderView::ContentLength { length, remaining }, data) == (Reading {
            reader: ReaderView::ContentLength {
                length,
                remaining: (remaining - data.len()) as nat,
            },
            buffer: Seq::empty(),
            result: Ok(Some(readers::plain_data(data))),
        }),
        readers::reading(ReaderView::ContentLength { length, remaining: 0 }, data) == (Reading {
            reader: ReaderView::ContentLength { length, remaining: 0 },
            buffer: data,
            result: Ok(Some(EventView::EndOfMessage(Seq::empty()))),
        }),
{
    assert(data.take(data.len() as int) =~= data);
    assert(data.skip(data.len() as int) =~= Seq::<u8>::empty());
}

/// A piece of a body that lasts until the connection is closed is received as it was sent.
pub proof fn law_http10_round_trip(data: Seq<u8>)
    requires
        0 < data.len() <= 999999999,
    ensures
        writers::written_data(writers::WriterView::Http10, data) == (
            writers::WriterView::Http10,
            Ok::<Seq<u8>, ErrorView>(data),
        ),
        readers::reading(ReaderView::Http10, data) == (Reading {
            reader: ReaderView::Http10,
            buffer: Seq::empty(),
            result: Ok(Some(readers::plain_data(data))),
        }),
        readers::at_eof(ReaderView::Http10) == Ok::<EventView, ErrorView>(
            EventView::EndOfMessage(Seq::empty()),
        ),
{
    assert(data.take(data.len() as int) =~= data);
    assert(data.skip(data.len() as int) =~= Seq::<u8>::empty());
}

} // verus!
