//! What the parts of a message look like, said of their bytes: names, values, lines, and which
//! lists of fields and which requests are in order.
use vstd::prelude::*;
use vstd::string::*;
use vstd::utf8::*;

use crate::abnf;
use crate::abnf::{Class, RequestLineView, StatusLineView};
use crate::bytes;
use crate::bytes::{COLON, COMMA, DOT, HTAB, SP};
use crate::events;
use crate::events::{Event, EventView, RequestView, Response, ResponseView};
use crate::headers;
use crate::headers::{Field, Normalized};
use crate::items;
use crate::readers;
use crate::readers::ReaderView;
use crate::receivebuffer;
use crate::roundtrip;
use crate::text;
use crate::util::ErrorView;

verus! {

/// The bytes of names and methods: digits, letters, and fifteen others.
pub proof fn law_token_bytes(b: u8)
    ensures
        abnf::in_class(Class::Token, b) <==> {
            ||| 0x30 <= b <= 0x39
            ||| 0x41 <= b <= 0x5a
            ||| 0x61 <= b <= 0x7a
            ||| "-!#$%&'*+.^_`|~".spec_bytes().contains(b)
        },
{
    let others = "-!#$%&'*+.^_`|~".spec_bytes();
    reveal_strlit("-!#$%&'*+.^_`|~");
    is_ascii_spec_bytes("-!#$%&'*+.^_`|~");
    assert(others =~= seq![
        45u8, 33, 35, 36, 37, 38, 39, 42, 43, 46, 94, 95, 96, 124, 126,
    ]);
    assert(others[0] == 45 && others[1] == 33 && others[2] == 35 && others[3] == 36 && others[4]
        == 37 && others[5] == 38 && others[6] == 39 && others[7] == 42 && others[8] == 43
        && others[9] == 46 && others[10] == 94 && others[11] == 95 && others[12] == 96
        && others[13] == 124 && others[14] == 126);
}

/// A token is one or more of these bytes, and a target one or more visible ones.
pub proof fn law_tokens_and_targets(s: Seq<u8>)
    ensures
        abnf::is_token(s) <==> s.len() > 0 && forall|i: int|
            0 <= i < s.len() ==> abnf::in_class(Class::Token, #[trigger] s[i]),
        abnf::is_request_target(s) <==> s.len() > 0 && forall|i: int|
            0 <= i < s.len() ==> 0x21 <= #[trigger] s[i] <= 0x7e,
{
    assert forall|i: int| 0 <= i < s.len() implies abnf::in_class(Class::Visible, s[i]) == (0x21
        <= #[trigger] s[i] <= 0x7e) by {}
    if abnf::is_request_target(s) {
        assert forall|i: int| 0 <= i < s.len() implies 0x21 <= #[trigger] s[i] <= 0x7e by {
            assert(abnf::in_class(Class::Visible, s[i]));
        }
    }
}

proof fn lemma_ascii_text(s: Seq<u8>)
    requires
        forall|i: int| 0 <= i < s.len() ==> #[trigger] s[i] < 128,
    ensures
        abnf::field_text_len(s) == s.len() <==> forall|i: int|
            0 <= i < s.len() ==> #[trigger] s[i] != 0 && !(10 <= s[i] <= 13),
    decreases s.len(),
{
    if s.len() > 0 {
        let t = s.drop_first();
        text::lemma_ascii_scalar(s);
        abnf::lemma_field_text_len(t);
        assert forall|i: int| 0 <= i < t.len() implies #[trigger] t[i] < 128 by {
            assert(t[i] == s[i + 1]);
        }
        lemma_ascii_text(t);
        if forall|i: int| 0 <= i < s.len() ==> #[trigger] s[i] != 0 && !(10 <= s[i] <= 13) {
            assert forall|i: int| 0 <= i < t.len() implies #[trigger] t[i] != 0 && !(10 <= t[i]
                <= 13) by {
                assert(t[i] == s[i + 1]);
            }
        }
        if abnf::field_text_len(s) == s.len() {
            assert(s[0] != 0 && !(10 <= s[0] <= 13));
            assert forall|i: int| 0 <= i < s.len() implies #[trigger] s[i] != 0 && !(10 <= s[i]
                <= 13) by {
                if i > 0 {
                    assert(s[i] == t[i - 1]);
                }
            }
        }
    }
}

/// A value in ASCII may hold anything but NUL and what breaks a line, and does not start or end
/// with a space or a tab.
pub proof fn law_ascii_values(s: Seq<u8>)
    requires
        forall|i: int| 0 <= i < s.len() ==> #[trigger] s[i] < 128,
    ensures
        abnf::is_field_value(s) <==> {
            &&& forall|i: int| 0 <= i < s.len() ==> #[trigger] s[i] != 0 && !(10 <= s[i] <= 13)
            &&& s.len() > 0 ==> s[0] != SP && s[0] != HTAB && s.last() != SP && s.last() != HTAB
        },
{
    lemma_ascii_text(s);
}

/// Any characters may stand in a value, but for NUL and for white space other than spaces and tabs;
/// bytes that are not UTF-8 may not.
pub proof fn law_text_of_values(chars: Seq<char>, s: Seq<u8>)
    ensures
        abnf::field_text_len(encode_utf8(chars)) == encode_utf8(chars).len() <==> forall|i: int|
            0 <= i < chars.len() ==> {
                let c = (#[trigger] chars[i]) as u32;
                c != 0 && (c == 0x20 || c == 0x9 || !text::is_white_space(c))
            },
        abnf::field_text_len(s) == s.len() ==> valid_utf8(s),
    decreases chars.len(),
{
    if abnf::field_text_len(s) == s.len() {
        abnf::lemma_field_text_utf8(s);
    }
    if chars.len() > 0 {
        let others = chars.drop_first();
        let all = encode_utf8(chars);
        let rest = encode_utf8(others);
        encode_utf8_first_scalar(chars);
        assert(pop_first_scalar(all) =~= rest);
        law_text_of_values(others, s);
        abnf::lemma_field_text_len(all);
        abnf::lemma_field_text_len(rest);
        if abnf::field_text_len(all) == all.len() {
            assert forall|i: int| 0 <= i < chars.len() implies {
                let c = (#[trigger] chars[i]) as u32;
                c != 0 && (c == 0x20 || c == 0x9 || !text::is_white_space(c))
            } by {
                if i > 0 {
                    assert(chars[i] == others[i - 1]);
                }
            }
        }
        if forall|i: int|
            0 <= i < chars.len() ==> {
                let c = (#[trigger] chars[i]) as u32;
                c != 0 && (c == 0x20 || c == 0x9 || !text::is_white_space(c))
            } {
            assert forall|i: int| 0 <= i < others.len() implies {
                let c = (#[trigger] others[i]) as u32;
                c != 0 && (c == 0x20 || c == 0x9 || !text::is_white_space(c))
            } by {
                assert(others[i] == chars[i + 1]);
            }
            assert(chars[0] as u32 != 0);
        }
    }
}

/// Whether all is spaces and tabs.
pub open spec fn is_blank(s: Seq<u8>) -> bool {
    forall|i: int| 0 <= i < s.len() ==> #[trigger] s[i] == SP || s[i] == HTAB
}

proof fn lemma_strip_end(s: Seq<u8>, end: Seq<u8>)
    requires
        is_blank(end),
        s.len() > 0 ==> s.last() != SP && s.last() != HTAB,
    ensures
        bytes::strip_ows_end(s + end) == s,
    decreases end.len(),
{
    let whole = s + end;
    if end.len() > 0 {
        assert(whole.last() == end[end.len() - 1]);
        let t = end.drop_last();
        assert forall|i: int| 0 <= i < t.len() implies #[trigger] t[i] == SP || t[i] == HTAB by {
            assert(t[i] == end[i]);
        }
        lemma_strip_end(s, t);
        assert(whole.drop_last() =~= s + t);
    } else {
        assert(whole =~= s);
    }
}

proof fn lemma_strip_end_splits(s: Seq<u8>) -> (end: Seq<u8>)
    ensures
        is_blank(end),
        s == bytes::strip_ows_end(s) + end,
    decreases s.len(),
{
    if s.len() > 0 && bytes::is_ows(s.last()) {
        let t = lemma_strip_end_splits(s.drop_last());
        let front = bytes::strip_ows_end(s.drop_last());
        let end = t.push(s.last());
        assert(s =~= s.drop_last().push(s.last()));
        assert((front + t).push(s.last()) =~= front + end);
        end
    } else {
        assert(s =~= bytes::strip_ows_end(s) + Seq::<u8>::empty());
        Seq::empty()
    }
}

/// A header line is a name, a colon, and a value with spaces and tabs around it.
pub proof fn law_header_lines(name: Seq<u8>, start: Seq<u8>, value: Seq<u8>, end: Seq<u8>)
    requires
        abnf::is_token(name),
        abnf::is_field_value(value),
        is_blank(start),
        is_blank(end),
    ensures
        abnf::header_field(name + seq![COLON] + start + value + end) == Some((name, value)),
{
    let line = name + seq![COLON] + start + value + end;
    let n = name.len() as int;
    let rest = start + value + end;
    assert forall|i: int| 0 <= i < n implies abnf::in_class(Class::Token, #[trigger] line[i]) by {
        assert(abnf::in_class(Class::Token, name[i]));
        assert(line[i] == name[i]);
    }
    assert(line[n] == COLON);
    abnf::lemma_run_is(line, Class::Token, n as nat);
    assert(line.take(n) =~= name);
    assert(line.skip(n + 1) =~= rest);
    if value.len() > 0 {
        assert forall|i: int| 0 <= i < start.len() implies bytes::is_ows(#[trigger] rest[i]) by {
            assert(rest[i] == start[i]);
        }
        assert(rest[start.len() as int] == value[0]);
        bytes::lemma_ows_len_is(rest, start.len());
        assert(rest.skip(start.len() as int) =~= value + end);
        lemma_strip_end(value, end);
    } else {
        assert forall|i: int| 0 <= i < rest.len() implies bytes::is_ows(#[trigger] rest[i]) by {
            if i < start.len() {
                assert(rest[i] == start[i]);
            } else {
                assert(rest[i] == end[i - start.len()]);
            }
        }
        bytes::lemma_ows_len_is(rest, rest.len());
        assert(rest.skip(rest.len() as int) =~= value);
    }
}

/// No other line is a header line.
pub proof fn law_header_lines_only(line: Seq<u8>) -> (r: (Seq<u8>, Seq<u8>))
    requires
        abnf::header_field(line) is Some,
    ensures
        ({
            let (name, value) = abnf::header_field(line)->0;
            &&& abnf::is_token(name)
            &&& abnf::is_field_value(value)
            &&& is_blank(r.0)
            &&& is_blank(r.1)
            &&& line == name + seq![COLON] + r.0 + value + r.1
        }),
{
    let n = abnf::run(line, Class::Token) as int;
    let (name, value) = abnf::header_field(line)->0;
    abnf::lemma_run(line, Class::Token);
    assert forall|i: int| 0 <= i < name.len() implies abnf::in_class(
        Class::Token,
        #[trigger] name[i],
    ) by {
        assert(name[i] == line[i]);
    }
    let rest = line.skip(n + 1);
    let k = bytes::ows_len(rest) as int;
    bytes::lemma_ows_len(rest);
    let start = rest.take(k);
    let end = lemma_strip_end_splits(rest.skip(k));
    assert forall|i: int| 0 <= i < start.len() implies #[trigger] start[i] == SP || start[i]
        == HTAB by {
        assert(bytes::is_ows(rest[i]));
    }
    assert(rest =~= start + rest.skip(k));
    assert(line =~= name + seq![COLON] + rest);
    assert(name + seq![COLON] + (start + (value + end)) =~= name + seq![COLON] + start + value
        + end);
    (start, end)
}

/// The version of a message, as it stands in its first line: `HTTP/` and two digits.
pub open spec fn version_text(major: u8, minor: u8) -> Seq<u8> {
    seq![0x48u8, 0x54, 0x54, 0x50, 0x2f, major, DOT, minor]
}

proof fn lemma_version(major: u8, minor: u8, more: Seq<u8>)
    requires
        bytes::is_digit(major),
        bytes::is_digit(minor),
    ensures
        abnf::starts_with_version(version_text(major, minor) + more),
        (version_text(major, minor) + more).subrange(5, 8) == seq![major, DOT, minor],
{
    let s = version_text(major, minor) + more;
    roundtrip::lemma_version_literals();
    assert(s.take(5) =~= "HTTP/".spec_bytes());
    assert(s.subrange(5, 8) =~= seq![major, DOT, minor]);
}

/// A request line is a method, a target and a version, with a space between them. It is read as
/// such, whatever the version is.
pub proof fn law_request_lines(
    method: Seq<u8>,
    target: Seq<u8>,
    major: u8,
    minor: u8,
    more: Seq<u8>,
)
    requires
        abnf::is_token(method),
        abnf::is_request_target(target),
        bytes::is_digit(major),
        bytes::is_digit(minor),
    ensures
        abnf::request_line(
            method + seq![SP] + target + seq![SP] + version_text(major, minor) + more,
        ) == Some(
            RequestLineView { method, target, http_version: seq![major, DOT, minor] },
        ),
{
    let s = method + seq![SP] + target + seq![SP] + version_text(major, minor) + more;
    let m = method.len() as int;
    let n = target.len() as int;
    assert forall|i: int| 0 <= i < m implies abnf::in_class(Class::Token, #[trigger] s[i]) by {
        assert(abnf::in_class(Class::Token, method[i]));
        assert(s[i] == method[i]);
    }
    assert(s[m] == SP);
    abnf::lemma_run_is(s, Class::Token, m as nat);
    assert(s.take(m) =~= method);
    let t = s.skip(m + 1);
    assert(t =~= target + seq![SP] + version_text(major, minor) + more);
    assert forall|i: int| 0 <= i < n implies abnf::in_class(Class::Visible, #[trigger] t[i]) by {
        assert(abnf::in_class(Class::Visible, target[i]));
        assert(t[i] == target[i]);
    }
    assert(t[n] == SP);
    abnf::lemma_run_is(t, Class::Visible, n as nat);
    assert(t.take(n) =~= target);
    assert(t.skip(n + 1) =~= version_text(major, minor) + more);
    lemma_version(major, minor, more);
    assert(abnf::request_line_at(s) is Some);
}

/// What is read of a request line is in order.
pub proof fn law_request_lines_only(s: Seq<u8>)
    ensures
        abnf::request_line(s) matches Some(line) ==> {
            &&& abnf::is_token(line.method)
            &&& abnf::is_request_target(line.target)
            &&& line.http_version.len() == 3
            &&& bytes::is_digit(line.http_version[0])
            &&& line.http_version[1] == DOT
            &&& bytes::is_digit(line.http_version[2])
        },
    decreases s.len(),
{
    if s.len() > 0 {
        match abnf::request_line_at(s) {
            Some(line) => {
                let m = abnf::run(s, Class::Token) as int;
                let t = s.skip(m + 1);
                abnf::lemma_run(s, Class::Token);
                abnf::lemma_run(t, Class::Visible);
                assert forall|i: int| 0 <= i < line.method.len() implies abnf::in_class(
                    Class::Token,
                    #[trigger] line.method[i],
                ) by {
                    assert(line.method[i] == s[i]);
                }
                assert forall|i: int| 0 <= i < line.target.len() implies abnf::in_class(
                    Class::Visible,
                    #[trigger] line.target[i],
                ) by {
                    assert(line.target[i] == t[i]);
                }
            },
            None => {
                law_request_lines_only(s.drop_first());
            },
        }
    }
}

/// A status line is a version, a code of three digits and a reason, with a space between them.
pub proof fn law_status_lines(major: u8, minor: u8, code: Seq<u8>, reason: Seq<u8>)
    requires
        bytes::is_digit(major),
        bytes::is_digit(minor),
        code.len() == 3,
        bytes::is_digits(code),
        abnf::field_text_len(reason) == reason.len(),
    ensures
        abnf::status_line(
            version_text(major, minor) + seq![SP] + code + seq![SP] + reason,
        ) == Some(
            StatusLineView {
                http_version: seq![major, DOT, minor],
                status_code: code,
                reason: Some(reason),
            },
        ),
{
    let more = seq![SP] + code + seq![SP] + reason;
    let s = version_text(major, minor) + seq![SP] + code + seq![SP] + reason;
    assert(s =~= version_text(major, minor) + more);
    lemma_version(major, minor, more);
    assert(s[8] == SP && s[12] == SP);
    assert(s.subrange(9, 12) =~= code);
    assert(s.skip(13) =~= reason);
    assert(reason.take(reason.len() as int) =~= reason);
    assert(abnf::status_line_at(s) is Some);
}

/// A response is an interim one exactly if its code is from 100 to 199.
pub proof fn law_interim_codes(response: ResponseView)
    ensures
        readers::response_event(response) == (if response.status_code / 100 == 1 {
            EventView::InformationalResponse(response)
        } else {
            EventView::NormalResponse(response)
        }),
{
}

/// A response becomes an event by the same rule where it is ours.
pub proof fn law_events_of_responses(response: Response)
    ensures
        ({
            let event = <Event as vstd::std_specs::convert::FromSpec<Response>>::from_spec(
                response,
            );
            &&& event is InformationalResponse <==> response.status_code / 100 == 1
            &&& event is NormalResponse <==> response.status_code / 100 != 1
            &&& event@ == readers::response_event(response@)
        }),
{
}

/// A reader can always go on, but for one case: a status line that ends with its code, without a
/// space after it.
pub proof fn law_when_reading_goes_on(reader: ReaderView, buffer: Seq<u8>)
    ensures
        readers::can_read(reader, buffer) <==> !(reader is SendResponseServer && {
            &&& receivebuffer::lines_at(buffer) matches Some((lines, _))
            &&& lines.len() > 0
            &&& abnf::status_line(lines[0]) matches Some(line)
            &&& line.reason is None
        }),
{
}

/// A line that starts with spaces or tabs goes on with the line before it, after one space; there
/// has to be one. Any other line starts a field.
pub proof fn law_continued_lines(
    lines: Seq<Seq<u8>>,
    line: Seq<u8>,
    blank: Seq<u8>,
    rest: Seq<u8>,
)
    requires
        is_blank(blank),
        blank.len() > 0,
        rest.len() > 0 ==> rest[0] != SP && rest[0] != HTAB,
        line.len() > 0 ==> line[0] != SP && line[0] != HTAB,
    ensures
        readers::unfolded(lines) matches Ok(out) ==> {
            &&& readers::unfolded(lines.push(line)) == Ok::<Seq<Seq<u8>>, ErrorView>(out.push(line))
            &&& out.len() == 0 ==> readers::unfolded(lines.push(blank + rest)) is Err
            &&& out.len() > 0 ==> readers::unfolded(lines.push(blank + rest)) == Ok::<
                Seq<Seq<u8>>,
                ErrorView,
            >(out.drop_last().push(out.last() + seq![SP] + rest))
        },
        readers::unfolded(lines) is Err ==> readers::unfolded(lines.push(line))
            == readers::unfolded(lines),
{
    assert(lines.push(line).drop_last() =~= lines);
    assert(lines.push(blank + rest).drop_last() =~= lines);
    let folded = blank + rest;
    assert forall|i: int| 0 <= i < blank.len() implies bytes::is_ows(#[trigger] folded[i]) by {
        assert(folded[i] == blank[i]);
    }
    if rest.len() > 0 {
        assert(folded[blank.len() as int] == rest[0]);
    }
    bytes::lemma_ows_len_is(folded, blank.len());
    bytes::lemma_ows_len_is(line, 0);
    assert(folded.skip(blank.len() as int) =~= rest);
}

/// Header lines are read one after the other; a line that is none is an error. The fields are what
/// the names and values give, which are not checked again.
pub proof fn law_one_more_line(lines: Seq<Seq<u8>>, line: Seq<u8>)
    requires
        readers::decoded(lines) is Ok,
        line.len() > 0 ==> line[0] != SP && line[0] != HTAB,
    ensures
        readers::decoded(Seq::empty()) == Ok::<Seq<(Seq<u8>, Seq<u8>)>, ErrorView>(Seq::empty()),
        match abnf::header_field(line) {
            Some(field) => readers::decoded(lines.push(line)) == Ok::<
                Seq<(Seq<u8>, Seq<u8>)>,
                ErrorView,
            >(readers::decoded(lines)->Ok_0.push(field)),
            None => readers::decoded(lines.push(line)) is Err,
        },
        match headers::normalize(readers::decoded(lines)->Ok_0, true) {
            Ok(n) => readers::parsed_fields(lines) == Ok::<Seq<Field>, ErrorView>(n.fields),
            Err(e) => readers::parsed_fields(lines) == Err::<Seq<Field>, ErrorView>(e),
        },
{
    let out = readers::unfolded(lines)->Ok_0;
    law_continued_lines(lines, line, seq![SP], Seq::empty());
    assert(out.push(line).drop_last() =~= out);
}

/// The head of a request is its first line and its fields, of whatever version; it is read exactly
/// if the fields can be read and the request is in order.
pub proof fn law_request_heads(
    method: Seq<u8>,
    target: Seq<u8>,
    major: u8,
    minor: u8,
    lines: Seq<Seq<u8>>,
)
    requires
        abnf::is_token(method),
        abnf::is_request_target(target),
        bytes::is_digit(major),
        bytes::is_digit(minor),
    ensures
        ({
            let first = method + seq![SP] + target + seq![SP] + version_text(major, minor);
            let r = readers::parsed_request(seq![first] + lines);
            match readers::parsed_fields(lines) {
                Ok(fields) => {
                    let request = RequestView {
                        method,
                        headers: fields,
                        target,
                        http_version: seq![major, DOT, minor],
                    };
                    if events::request_error(request) is None {
                        r == Ok::<RequestView, ErrorView>(request)
                    } else {
                        r is Err
                    }
                },
                Err(e) => r == Err::<RequestView, ErrorView>(e),
            }
        }),
{
    let first = method + seq![SP] + target + seq![SP] + version_text(major, minor);
    law_request_lines(method, target, major, minor, Seq::empty());
    assert(first + Seq::<u8>::empty() =~= first);
    assert((seq![first] + lines).skip(1) =~= lines);
}

/// The head of a response is its first line and its fields, of whatever version; it is read exactly
/// if the fields can be read.
pub proof fn law_response_heads(
    major: u8,
    minor: u8,
    code: Seq<u8>,
    reason: Seq<u8>,
    lines: Seq<Seq<u8>>,
)
    requires
        bytes::is_digit(major),
        bytes::is_digit(minor),
        code.len() == 3,
        bytes::is_digits(code),
        abnf::field_text_len(reason) == reason.len(),
    ensures
        ({
            let first = version_text(major, minor) + seq![SP] + code + seq![SP] + reason;
            let r = readers::parsed_response(seq![first] + lines);
            match readers::parsed_fields(lines) {
                Ok(fields) => r == Ok::<ResponseView, ErrorView>(
                    ResponseView {
                        headers: fields,
                        http_version: seq![major, DOT, minor],
                        reason,
                        status_code: ((code[0] - 0x30) * 100 + (code[1] - 0x30) * 10 + (code[2]
                            - 0x30)) as u16,
                    },
                ),
                Err(e) => r == Err::<ResponseView, ErrorView>(e),
            }
        }),
{
    let first = version_text(major, minor) + seq![SP] + code + seq![SP] + reason;
    law_status_lines(major, minor, code, reason);
    assert((seq![first] + lines).skip(1) =~= lines);
    let one = code.drop_last().drop_last();
    let two = code.drop_last();
    assert(bytes::is_digit(code[0]) && bytes::is_digit(code[1]) && bytes::is_digit(code[2]));
    assert(one.drop_last() =~= Seq::<u8>::empty());
    assert(bytes::digits_value(one.drop_last(), 10) == 0);
    assert(one.last() == code[0] && two.last() == code[1]);
    assert(bytes::digits_value(one, 10) == code[0] - 0x30);
    assert(bytes::digits_value(two, 10) == (code[0] - 0x30) * 10 + (code[1] - 0x30));
}

/// What the record of a normalized list says of the length is true of the fields.
pub open spec fn holds_length(n: Normalized) -> bool {
    &&& n.content_length matches Some(length) ==> exists|i: int|
        0 <= i < n.fields.len() && (#[trigger] n.fields[i]).name == headers::content_length()
            && n.fields[i].value == length
    &&& n.transfer_encoding ==> items::has_field(n.fields, headers::transfer_encoding())
}

proof fn lemma_holds_length(pairs: Seq<(Seq<u8>, Seq<u8>)>, parsed: bool)
    ensures
        headers::normalize(pairs, parsed) matches Ok(n) ==> holds_length(n),
    decreases pairs.len(),
{
    if pairs.len() > 0 {
        lemma_holds_length(pairs.drop_last(), parsed);
        if let Ok(n) = headers::normalize(pairs, parsed) {
            let before = headers::normalize(pairs.drop_last(), parsed)->Ok_0;
            let m = before.fields.len() as int;
            headers::lemma_names_differ();
            if let Some(length) = n.content_length {
                if before.content_length is Some {
                    let i = choose|i: int|
                        0 <= i < before.fields.len() && (#[trigger] before.fields[i]).name
                            == headers::content_length() && before.fields[i].value == length;
                    assert(n.fields[i] == before.fields[i]);
                } else {
                    assert(n.fields[m].value == length);
                }
            }
            if n.transfer_encoding {
                if before.transfer_encoding {
                    let i = choose|i: int|
                        0 <= i < before.fields.len() && (#[trigger] before.fields[i]).name
                            == headers::transfer_encoding();
                    assert(n.fields[i] == before.fields[i]);
                } else {
                    assert(n.fields[m].name == headers::transfer_encoding());
                }
            }
        }
    }
}

/// Whether a value is a list of one and the same item.
pub open spec fn lists_only(value: Seq<u8>, item: Seq<u8>) -> bool {
    forall|a: int, b: int| #[trigger]
        items::between(value, COMMA, a, b) ==> text::trim(value.subrange(a, b)) == item
}

proof fn lemma_lists_only(value: Seq<u8>, item: Seq<u8>)
    ensures
        lists_only(value, item) <==> headers::all_same(headers::list_items(value))
            && headers::list_items(value)[0] == item,
        headers::list_items(value).len() > 0,
{
    let list = headers::list_items(value);
    bytes::lemma_split_nonempty(value, COMMA);
    if lists_only(value, item) {
        assert forall|k: int| 0 <= k < list.len() implies #[trigger] list[k] == item by {
            let (a, b) = items::lemma_place(value, COMMA, k);
            assert(items::between(value, COMMA, a, b));
        }
    }
    if headers::all_same(list) && list[0] == item {
        assert forall|a: int, b: int| #[trigger]
            items::between(value, COMMA, a, b) implies text::trim(value.subrange(a, b))
            == item by {
            let k = items::lemma_piece(value, COMMA, a, b);
            assert(list[k] == list[0]);
        }
    }
}

/// No fields are in order. Where some are, one more is in order if its name is a token and its
/// value a value, or it was parsed; it is added as it is, with its name also in lower case.
pub proof fn law_one_more_field(
    pairs: Seq<(Seq<u8>, Seq<u8>)>,
    name: Seq<u8>,
    value: Seq<u8>,
    parsed: bool,
)
    requires
        headers::normalize(pairs, parsed) is Ok,
        bytes::lowercase(name) != headers::content_length(),
        bytes::lowercase(name) != headers::transfer_encoding(),
    ensures
        headers::normalize(Seq::empty(), parsed) matches Ok(n) && n.fields.len() == 0,
        ({
            let fields = headers::normalize(pairs, parsed)->Ok_0.fields;
            let after = headers::normalize(pairs.push((name, value)), parsed);
            &&& after is Ok <==> parsed || (abnf::is_token(name) && abnf::is_field_value(value))
            &&& after matches Ok(n) ==> n.fields == fields.push(
                Field { raw_name: name, name: bytes::lowercase(name), value },
            )
            &&& after matches Err(e) ==> (e matches ErrorView::Local { code, .. } && code == 400)
        }),
{
    assert(pairs.push((name, value)).drop_last() =~= pairs);
}

/// A length may be repeated, in one field or in several, but is one: a number in digits, and the
/// same each time. It is kept once, where it came first. `i` is where, if it has come.
pub proof fn law_one_more_length(
    pairs: Seq<(Seq<u8>, Seq<u8>)>,
    name: Seq<u8>,
    value: Seq<u8>,
    length: Seq<u8>,
    parsed: bool,
    i: int,
)
    requires
        headers::normalize(pairs, parsed) is Ok,
        bytes::lowercase(name) == headers::content_length(),
        parsed || (abnf::is_token(name) && abnf::is_field_value(value)),
    ensures
        ({
            let fields = headers::normalize(pairs, parsed)->Ok_0.fields;
            let known = items::has_field(fields, headers::content_length());
            let is_length = bytes::is_digits(length) && lists_only(value, length);
            let after = headers::normalize(pairs.push((name, value)), parsed);
            &&& is_length && !known ==> after is Ok && after->Ok_0.fields == fields.push(
                Field { raw_name: name, name: headers::content_length(), value: length },
            )
            &&& is_length && 0 <= i < fields.len() && fields[i].name == headers::content_length()
                ==> {
                &&& after is Ok <==> fields[i].value == length
                &&& after is Ok ==> after->Ok_0.fields == fields
            }
            &&& !(exists|one: Seq<u8>|
                bytes::is_digits(one) && #[trigger] lists_only(value, one)) ==> after is Err
            &&& after matches Err(e) ==> (e matches ErrorView::Local { code, .. } && code == 400)
        }),
{
    let list = headers::list_items(value);
    let before = headers::normalize(pairs, parsed)->Ok_0;
    assert(pairs.push((name, value)).drop_last() =~= pairs);
    headers::lemma_normalize_valid(pairs, parsed);
    lemma_holds_length(pairs, parsed);
    lemma_lists_only(value, length);
    lemma_lists_only(value, list[0]);
    if 0 <= i < before.fields.len() && before.fields[i].name == headers::content_length() {
        assert(before.content_length is Some);
        let j = choose|j: int|
            0 <= j < before.fields.len() && (#[trigger] before.fields[j]).name
                == headers::content_length() && before.fields[j].value == before.content_length->0;
        assert(before.fields[i].name == headers::content_length());
        assert(i == j);
    }
    if before.content_length is Some {
        assert(items::has_field(before.fields, headers::content_length()));
    }
}

/// A transfer coding can be named once, and it has to be `chunked`, in capitals or not. Whatever
/// is wrong with it has status 501.
pub proof fn law_one_more_coding(
    pairs: Seq<(Seq<u8>, Seq<u8>)>,
    name: Seq<u8>,
    value: Seq<u8>,
    parsed: bool,
)
    requires
        headers::normalize(pairs, parsed) is Ok,
        bytes::lowercase(name) == headers::transfer_encoding(),
        parsed || (abnf::is_token(name) && abnf::is_field_value(value)),
    ensures
        ({
            let fields = headers::normalize(pairs, parsed)->Ok_0.fields;
            let after = headers::normalize(pairs.push((name, value)), parsed);
            &&& after is Ok <==> !items::has_field(fields, headers::transfer_encoding())
                && bytes::lowercase(value) == "chunked".spec_bytes()
            &&& after matches Ok(n) ==> n.fields == fields.push(
                Field {
                    raw_name: name,
                    name: headers::transfer_encoding(),
                    value: "chunked".spec_bytes(),
                },
            )
            &&& after matches Err(e) ==> (e matches ErrorView::Local { code, .. } && code == 501)
        }),
{
    let before = headers::normalize(pairs, parsed)->Ok_0;
    assert(pairs.push((name, value)).drop_last() =~= pairs);
    headers::lemma_names_differ();
    headers::lemma_normalize_valid(pairs, parsed);
    lemma_holds_length(pairs, parsed);
    if items::has_field(before.fields, headers::transfer_encoding()) {
        let i = choose|i: int|
            0 <= i < before.fields.len() && (#[trigger] before.fields[i]).name
                == headers::transfer_encoding();
        assert(before.transfer_encoding);
    }
}

proof fn lemma_hosts(fields: Seq<Field>)
    ensures
        events::host_count(fields) == 0 <==> !items::has_field(fields, "host".spec_bytes()),
        events::host_count(fields) > 1 <==> exists|i: int, j: int|
            0 <= i < j < fields.len() && (#[trigger] fields[i]).name == "host".spec_bytes() && (
            #[trigger] fields[j]).name == "host".spec_bytes(),
    decreases fields.len(),
{
    let host = "host".spec_bytes();
    if fields.len() > 0 {
        let front = fields.drop_last();
        let n = front.len() as int;
        assert forall|i: int| 0 <= i < n implies #[trigger] front[i] == fields[i] by {}
        lemma_hosts(front);
        if items::has_field(front, host) {
            let i = choose|i: int| 0 <= i < front.len() && (#[trigger] front[i]).name == host;
            assert(fields[i].name == host);
            if fields.last().name == host {
                assert(fields[i].name == host && fields[n].name == host);
            }
        }
        if items::has_field(fields, host) && fields.last().name != host {
            let i = choose|i: int| 0 <= i < fields.len() && (#[trigger] fields[i]).name == host;
            assert(front[i].name == host);
        }
        if fields.last().name == host {
            assert(fields[n].name == host);
        }
        if events::host_count(front) > 1 {
            let (i, j) = choose|i: int, j: int|
                0 <= i < j < front.len() && (#[trigger] front[i]).name == host && (
                #[trigger] front[j]).name == host;
            assert(fields[i].name == host && fields[j].name == host);
        }
        if exists|i: int, j: int|
            0 <= i < j < fields.len() && (#[trigger] fields[i]).name == host && (
            #[trigger] fields[j]).name == host {
            let (i, j) = choose|i: int, j: int|
                0 <= i < j < fields.len() && (#[trigger] fields[i]).name == host && (
                #[trigger] fields[j]).name == host;
            assert(front[i].name == host);
            if j < n {
                assert(front[j].name == host);
            }
        }
    }
}

/// A request is in order exactly if its method is a token, its target is visible, it has at most
/// one `Host` field, and, in HTTP/1.1, one.
pub proof fn law_requests_in_order(r: RequestView)
    ensures
        events::request_error(r) is None <==> {
            &&& abnf::is_token(r.method)
            &&& abnf::is_request_target(r.target)
            &&& forall|i: int, j: int|
                0 <= i < j < r.headers.len() && (#[trigger] r.headers[i]).name
                    == "host".spec_bytes() ==> (#[trigger] r.headers[j]).name
                    != "host".spec_bytes()
            &&& r.http_version == "1.1".spec_bytes() ==> items::has_field(
                r.headers,
                "host".spec_bytes(),
            )
        },
        events::request_error(r) matches Some(e) ==> (e matches ErrorView::Local { code, .. }
            && code == 400),
{
    lemma_hosts(r.headers);
}

} // verus!
