//! The header fields of a message: how they are checked and normalized, and the lists of
//! values that commas separate.
use vstd::prelude::*;
use vstd::string::*;
use vstd::utf8::*;

use crate::abnf;
use crate::abnf::{matches_field_value, matches_run, matches_utf8, Class};
use crate::bytes;
use crate::bytes::{
    all_digits, bytes_before, bytes_eq, split_at_byte, to_lowercase, to_vec, COMMA,
};
use crate::events::Request;
use crate::text;
use crate::text::trimmed;
use crate::util;
use crate::util::{
    local_error, local_error_about, ErrorView, LocalProtocolError, ProtocolError,
};

verus! {

/// A header field: its name as it was written and in lower case, and its value.
#[verifier::ext_equal]
pub struct Field {
    pub raw_name: Seq<u8>,
    pub name: Seq<u8>,
    pub value: Seq<u8>,
}

pub open spec fn field_view(f: (Vec<u8>, Vec<u8>, Vec<u8>)) -> Field {
    Field { raw_name: f.0@, name: f.1@, value: f.2@ }
}

pub open spec fn fields_view(s: Seq<(Vec<u8>, Vec<u8>, Vec<u8>)>) -> Seq<Field> {
    s.map_values(|f: (Vec<u8>, Vec<u8>, Vec<u8>)| field_view(f))
}

/// The contents of a list of names and values.
pub open spec fn pairs_view(s: Seq<(Vec<u8>, Vec<u8>)>) -> Seq<(Seq<u8>, Seq<u8>)> {
    s.map_values(|p: (Vec<u8>, Vec<u8>)| abnf::pair_view(p))
}

pub open spec fn content_length() -> Seq<u8> {
    "content-length".spec_bytes()
}

pub open spec fn transfer_encoding() -> Seq<u8> {
    "transfer-encoding".spec_bytes()
}

pub proof fn lemma_names_differ()
    ensures
        content_length().len() == 14,
        transfer_encoding().len() == 17,
{
    reveal_strlit("content-length");
    reveal_strlit("transfer-encoding");
    is_ascii_spec_bytes("content-length");
    is_ascii_spec_bytes("transfer-encoding");
}

/// What holds of the fields of every message: names are also kept in lower case, there is at
/// most one `Content-Length` and it is a number, and at most one `Transfer-Encoding` and it is
/// `chunked`.
pub open spec fn valid_fields(s: Seq<Field>) -> bool {
    &&& forall|i: int|
        0 <= i < s.len() ==> (#[trigger] s[i]).name == bytes::lowercase(s[i].raw_name)
    &&& forall|i: int|
        0 <= i < s.len() && (#[trigger] s[i]).name == content_length() ==> bytes::is_digits(
            s[i].value,
        )
    &&& forall|i: int, j: int|
        0 <= i < s.len() && 0 <= j < s.len() && (#[trigger] s[i]).name == content_length() && (
        #[trigger] s[j]).name == content_length() ==> i == j
    &&& forall|i: int|
        0 <= i < s.len() && (#[trigger] s[i]).name == transfer_encoding() ==> s[i].value
            == "chunked".spec_bytes()
    &&& forall|i: int, j: int|
        0 <= i < s.len() && 0 <= j < s.len() && (#[trigger] s[i]).name == transfer_encoding() && (
        #[trigger] s[j]).name == transfer_encoding() ==> i == j
}

/// The header fields of a message.
#[derive(PartialEq, Eq, Hash, PartialOrd, Ord)]
pub struct Headers(Vec<(Vec<u8>, Vec<u8>, Vec<u8>)>);

impl View for Headers {
    type V = Seq<Field>;

    closed spec fn view(&self) -> Seq<Field> {
        fields_view(self.0@)
    }
}

impl Headers {
    #[verifier::type_invariant]
    pub open spec fn valid(self) -> bool {
        valid_fields(self@)
    }

    /// The names, in lower case, and the values.
    pub fn iter(&self) -> (r: Vec<(Vec<u8>, Vec<u8>)>)
        ensures
            pairs_view(r@) == names_and_values(self@),
    {
        let mut out: Vec<(Vec<u8>, Vec<u8>)> = Vec::new();
        let mut i: usize = 0;
        while i < self.0.len()
            invariant
                i <= self.0@.len(),
                out@.len() == i,
                forall|j: int|
                    0 <= j < i ==> abnf::pair_view(#[trigger] out@[j]) == (
                        self@[j].name,
                        self@[j].value,
                    ),
            decreases self.0@.len() - i,
        {
            let field: &(Vec<u8>, Vec<u8>, Vec<u8>) = &self.0[i];
            out.push((to_vec(field.1.as_slice()), to_vec(field.2.as_slice())));
            i = i + 1;
        }
        assert(pairs_view(out@) =~= names_and_values(self@));
        out
    }

    /// The fields, each with its name as it was written, its name in lower case and its value.
    pub fn raw_items(&self) -> (r: Vec<&(Vec<u8>, Vec<u8>, Vec<u8>)>)
        ensures
            r@.len() == self@.len(),
            forall|i: int| 0 <= i < r@.len() ==> field_view(*#[trigger] r@[i]) == self@[i],
    {
        let mut out: Vec<&(Vec<u8>, Vec<u8>, Vec<u8>)> = Vec::new();
        let mut i: usize = 0;
        while i < self.0.len()
            invariant
                i <= self.0@.len(),
                out@.len() == i,
                forall|j: int| 0 <= j < i ==> field_view(*#[trigger] out@[j]) == self@[j],
            decreases self.0@.len() - i,
        {
            out.push(&self.0[i]);
            i = i + 1;
        }
        out
    }

    pub fn len(&self) -> (r: usize)
        ensures
            r == self@.len(),
    {
        self.0.len()
    }

    /// Makes the header fields of a message from names and values that are known to be good.
    pub fn from(value: Vec<(Vec<u8>, Vec<u8>)>) -> (r: Headers)
        requires
            normalize(pairs_view(value@), false) is Ok,
        ensures
            normalize(pairs_view(value@), false) matches Ok(n) && r@ == n.fields,
    {
        let ghost pairs = pairs_view(value@);
        match normalize_and_validate(value, false) {
            Ok(headers) => headers,
            Err(_) => {
                assert(normalize(pairs, false) is Err);
                Headers::default()
            },
        }
    }
}

impl Default for Headers {
    fn default() -> (r: Self)
        ensures
            r@ == Seq::<Field>::empty(),
    {
        let fields: Vec<(Vec<u8>, Vec<u8>, Vec<u8>)> = Vec::new();
        assert(fields_view(fields@) =~= Seq::empty());
        Headers(fields)
    }
}

impl Clone for Headers {
    fn clone(&self) -> (r: Self)
        ensures
            r@ == self@,
    {
        proof {
            use_type_invariant(self);
        }
        let mut out: Vec<(Vec<u8>, Vec<u8>, Vec<u8>)> = Vec::new();
        let mut i: usize = 0;
        while i < self.0.len()
            invariant
                i <= self.0@.len(),
                out@.len() == i,
                forall|j: int| 0 <= j < i ==> field_view(#[trigger] out@[j]) == self@[j],
            decreases self.0@.len() - i,
        {
            let field: &(Vec<u8>, Vec<u8>, Vec<u8>) = &self.0[i];
            out.push(
                (
                    to_vec(field.0.as_slice()),
                    to_vec(field.1.as_slice()),
                    to_vec(field.2.as_slice()),
                ),
            );
            i = i + 1;
        }
        assert(fields_view(out@) =~= self@);
        Headers(out)
    }
}

/// The names, in lower case, and the values of header fields.
pub open spec fn names_and_values(s: Seq<Field>) -> Seq<(Seq<u8>, Seq<u8>)> {
    s.map_values(|f: Field| (f.name, f.value))
}

/// The fields that were taken so far, and what they said of the body.
#[verifier::ext_equal]
pub struct Normalized {
    pub fields: Seq<Field>,
    pub content_length: Option<Seq<u8>>,
    pub transfer_encoding: bool,
}

/// The pieces of a list that commas separate, without the white space around them.
pub open spec fn list_items(value: Seq<u8>) -> Seq<Seq<u8>> {
    bytes::split(value, COMMA).map_values(|piece: Seq<u8>| text::trim(piece))
}

pub open spec fn all_same(s: Seq<Seq<u8>>) -> bool {
    forall|i: int| 0 <= i < s.len() ==> #[trigger] s[i] == s[0]
}

/// Adds one field. The name and the value are checked unless they were parsed. Lists of equal
/// lengths count as one `Content-Length`; a repeated equal one is dropped.
pub open spec fn normalize_field(
    before: Normalized,
    raw_name: Seq<u8>,
    value: Seq<u8>,
    parsed: bool,
) -> Result<Normalized, ErrorView> {
    let name = bytes::lowercase(raw_name);
    if !parsed && !abnf::is_token(raw_name) {
        Err(util::local("Illegal header name "@ + util::shown(raw_name)))
    } else if !parsed && !abnf::is_field_value(value) {
        Err(util::local("Illegal header value "@ + util::shown(value)))
    } else if name == content_length() {
        let lengths = list_items(value);
        let length = lengths[0];
        if !all_same(lengths) {
            Err(util::local("conflicting Content-Length headers"@))
        } else if !bytes::is_digits(length) {
            Err(util::local("bad Content-Length"@))
        } else if before.content_length is None {
            Ok(
                Normalized {
                    fields: before.fields.push(Field { raw_name, name, value: length }),
                    content_length: Some(length),
                    ..before
                },
            )
        } else if before.content_length != Some(length) {
            Err(util::local("conflicting Content-Length headers"@))
        } else {
            Ok(before)
        }
    } else if name == transfer_encoding() {
        let coding = bytes::lowercase(value);
        if before.transfer_encoding {
            Err(ErrorView::Local { message: "multiple Transfer-Encoding headers"@, code: 501 })
        } else if coding != "chunked".spec_bytes() {
            Err(
                ErrorView::Local {
                    message: "Only Transfer-Encoding: chunked is supported"@,
                    code: 501,
                },
            )
        } else {
            Ok(
                Normalized {
                    fields: before.fields.push(Field { raw_name, name, value: coding }),
                    transfer_encoding: true,
                    ..before
                },
            )
        }
    } else {
        Ok(Normalized { fields: before.fields.push(Field { raw_name, name, value }), ..before })
    }
}

/// Takes the fields from the first to the last, and stops at the first error.
pub open spec fn normalize(headers: Seq<(Seq<u8>, Seq<u8>)>, parsed: bool) -> Result<
    Normalized,
    ErrorView,
>
    decreases headers.len(),
{
    if headers.len() == 0 {
        Ok(Normalized { fields: Seq::empty(), content_length: None, transfer_encoding: false })
    } else {
        match normalize(headers.drop_last(), parsed) {
            Ok(before) => normalize_field(before, headers.last().0, headers.last().1, parsed),
            Err(e) => Err(e),
        }
    }
}

/// An error in the first fields is the error of all of them.
pub proof fn lemma_normalize_prefix(headers: Seq<(Seq<u8>, Seq<u8>)>, parsed: bool, n: int)
    requires
        0 <= n <= headers.len(),
        normalize(headers.take(n), parsed) is Err,
    ensures
        normalize(headers, parsed) == normalize(headers.take(n), parsed),
    decreases headers.len() - n,
{
    if n == headers.len() {
        assert(headers.take(n) =~= headers);
    } else {
        assert(headers.take(n + 1).drop_last() =~= headers.take(n));
        lemma_normalize_prefix(headers, parsed, n + 1);
    }
}

/// What the record of a normalized list says of its fields.
pub open spec fn records(n: Normalized) -> bool {
    &&& valid_fields(n.fields)
    &&& n.content_length is None ==> forall|i: int|
        0 <= i < n.fields.len() ==> (#[trigger] n.fields[i]).name != content_length()
    &&& !n.transfer_encoding ==> forall|i: int|
        0 <= i < n.fields.len() ==> (#[trigger] n.fields[i]).name != transfer_encoding()
}

proof fn lemma_normalize_field_valid(
    before: Normalized,
    raw_name: Seq<u8>,
    value: Seq<u8>,
    parsed: bool,
)
    requires
        records(before),
    ensures
        normalize_field(before, raw_name, value, parsed) matches Ok(n) ==> records(n),
{
    lemma_names_differ();
}

/// Normalized fields are valid.
pub proof fn lemma_normalize_valid(headers: Seq<(Seq<u8>, Seq<u8>)>, parsed: bool)
    ensures
        normalize(headers, parsed) matches Ok(n) ==> records(n),
    decreases headers.len(),
{
    if headers.len() > 0 {
        lemma_normalize_valid(headers.drop_last(), parsed);
        match normalize(headers.drop_last(), parsed) {
            Ok(before) => {
                lemma_normalize_field_valid(before, headers.last().0, headers.last().1, parsed);
            },
            Err(_) => {},
        }
    }
}

/// Whether the lengths that will be read are text: what was parsed is not checked again.
pub open spec fn lengths_readable(headers: Seq<(Seq<u8>, Seq<u8>)>) -> bool {
    forall|i: int|
        0 <= i < headers.len() && normalize(headers.take(i), true) is Ok && bytes::lowercase(
            (#[trigger] headers[i]).0,
        ) == content_length() ==> valid_utf8(headers[i].1)
}

fn trimmed_items(value: &[u8]) -> (r: Vec<Vec<u8>>)
    ensures
        bytes::views(r@) == list_items(value@),
        r@.len() >= 1,
{
    let pieces: Vec<Vec<u8>> = split_at_byte(value, COMMA);
    let mut out: Vec<Vec<u8>> = Vec::new();
    let mut i: usize = 0;
    while i < pieces.len()
        invariant
            i <= pieces@.len(),
            out@.len() == i,
            forall|j: int| 0 <= j < i ==> (#[trigger] out@[j])@ == text::trim(pieces@[j]@),
        decreases pieces@.len() - i,
    {
        out.push(to_vec(trimmed(pieces[i].as_slice())));
        i = i + 1;
    }
    assert(bytes::views(out@) =~= list_items(value@)) by {
        assert forall|j: int| 0 <= j < out@.len() implies out@[j]@ == text::trim(
            bytes::split(value@, COMMA)[j],
        ) by {
            assert(bytes::views(pieces@)[j] == pieces@[j]@);
        }
    }
    out
}

fn are_same(items: &Vec<Vec<u8>>) -> (r: bool)
    ensures
        r == all_same(bytes::views(items@)),
{
    let ghost views = bytes::views(items@);
    let mut i: usize = 0;
    while i < items.len()
        invariant
            i <= items@.len(),
            views == bytes::views(items@),
            forall|j: int| 0 <= j < i ==> #[trigger] views[j] == views[0],
        decreases items@.len() - i,
    {
        if !bytes_eq(items[i].as_slice(), items[0].as_slice()) {
            assert(views[i as int] != views[0]);
            return false;
        }
        assert(views[i as int] == items@[i as int]@);
        i = i + 1;
    }
    true
}

/// Checks and normalizes the header fields of a message: names get a form in lower case, and
/// the fields that frame the body must make sense.
pub fn normalize_and_validate(headers: Vec<(Vec<u8>, Vec<u8>)>, _parsed: bool) -> (r: Result<
    Headers,
    ProtocolError,
>)
    requires
        _parsed ==> lengths_readable(pairs_view(headers@)),
    ensures
        match normalize(pairs_view(headers@), _parsed) {
            Ok(n) => r is Ok && r->Ok_0@ == n.fields,
            Err(e) => r is Err && r->Err_0@ == e,
        },
{
    let ghost pairs = pairs_view(headers@);
    let mut new_headers: Vec<(Vec<u8>, Vec<u8>, Vec<u8>)> = Vec::new();
    let mut seen_content_length: Option<Vec<u8>> = None;
    let mut saw_transfer_encoding: bool = false;
    let mut i: usize = 0;
    assert(fields_view(new_headers@) =~= Seq::<Field>::empty());
    while i < headers.len()
        invariant
            i <= headers@.len(),
            pairs == pairs_view(headers@),
            normalize(pairs.take(i as int), _parsed) == Ok::<Normalized, ErrorView>(
                Normalized {
                    fields: fields_view(new_headers@),
                    content_length: bytes::opt_view(seen_content_length),
                    transfer_encoding: saw_transfer_encoding,
                },
            ),
        decreases headers@.len() - i,
    {
        let ghost before = Normalized {
            fields: fields_view(new_headers@),
            content_length: bytes::opt_view(seen_content_length),
            transfer_encoding: saw_transfer_encoding,
        };
        let raw_name: &[u8] = headers[i].0.as_slice();
        let value: &[u8] = headers[i].1.as_slice();
        proof {
            assert(pairs.take(i + 1).drop_last() =~= pairs.take(i as int));
            assert(pairs.take(i + 1).last() == pairs[i as int]);
            assert(pairs[i as int] == (raw_name@, value@));
            assert(normalize(pairs.take(i + 1), _parsed) == normalize_field(
                before,
                raw_name@,
                value@,
                _parsed,
            ));
            if normalize(pairs.take(i + 1), _parsed) is Err {
                lemma_normalize_prefix(pairs, _parsed, i + 1);
            }
        }
        if !_parsed {
            if !matches_run(raw_name, Class::Token) {
                return Err(local_error_about("Illegal header name ", raw_name));
            }
            if !matches_field_value(value) {
                return Err(local_error_about("Illegal header value ", value));
            }
        }
        let name: Vec<u8> = to_lowercase(raw_name);
        if bytes_eq(name.as_slice(), "content-length".as_bytes()) {
            let lengths: Vec<Vec<u8>> = trimmed_items(value);
            let ghost items = list_items(value@);
            assert(lengths@[0]@ == bytes::views(lengths@)[0]);
            if !are_same(&lengths) {
                return Err(local_error("conflicting Content-Length headers"));
            }
            let length: &Vec<u8> = &lengths[0];
            if !all_digits(length.as_slice()) {
                return Err(local_error("bad Content-Length"));
            }
            match &seen_content_length {
                None => {
                    new_headers.push((to_vec(raw_name), name, to_vec(length.as_slice())));
                    seen_content_length = Some(to_vec(length.as_slice()));
                    assert(fields_view(new_headers@) =~= before.fields.push(
                        Field {
                            raw_name: raw_name@,
                            name: bytes::lowercase(raw_name@),
                            value: items[0],
                        },
                    ));
                },
                Some(seen) => {
                    if !bytes_eq(seen.as_slice(), length.as_slice()) {
                        return Err(local_error("conflicting Content-Length headers"));
                    }
                },
            }
        } else if bytes_eq(name.as_slice(), "transfer-encoding".as_bytes()) {
            // A server answers 501 to a transfer coding that it does not understand.
            if saw_transfer_encoding {
                return Err(
                    ProtocolError::LocalProtocolError(
                        LocalProtocolError {
                            message: "multiple Transfer-Encoding headers".to_owned(),
                            code: 501,
                        },
                    ),
                );
            }
            // The names of transfer codings are case-insensitive.

            let coding: Vec<u8> = to_lowercase(value);
            if !bytes_eq(coding.as_slice(), "chunked".as_bytes()) {
                return Err(
                    ProtocolError::LocalProtocolError(
                        LocalProtocolError {
                            message: "Only Transfer-Encoding: chunked is supported".to_owned(),
                            code: 501,
                        },
                    ),
                );
            }
            saw_transfer_encoding = true;
            new_headers.push((to_vec(raw_name), name, coding));
            assert(fields_view(new_headers@) =~= before.fields.push(
                Field {
                    raw_name: raw_name@,
                    name: bytes::lowercase(raw_name@),
                    value: bytes::lowercase(value@),
                },
            ));
        } else {
            new_headers.push((to_vec(raw_name), name, to_vec(value)));
            assert(fields_view(new_headers@) =~= before.fields.push(
                Field {
                    raw_name: raw_name@,
                    name: bytes::lowercase(raw_name@),
                    value: value@,
                },
            ));
        }
        i = i + 1;
    }
    proof {
        assert(pairs.take(i as int) =~= pairs);
        lemma_normalize_valid(pairs, _parsed);
    }
    Ok(Headers(new_headers))
}

/// The items that are not empty.
pub open spec fn nonempty(s: Seq<Seq<u8>>) -> Seq<Seq<u8>>
    decreases s.len(),
{
    if s.len() == 0 {
        Seq::empty()
    } else if s.last().len() > 0 {
        nonempty(s.drop_last()).push(s.last())
    } else {
        nonempty(s.drop_last())
    }
}

/// The items of all the fields of a name, in lower case.
pub open spec fn comma_values(fields: Seq<Field>, name: Seq<u8>) -> Seq<Seq<u8>>
    decreases fields.len(),
{
    if fields.len() == 0 {
        Seq::empty()
    } else {
        let before = comma_values(fields.drop_last(), name);
        if fields.last().name == name {
            before + nonempty(list_items(bytes::lowercase(fields.last().value)))
        } else {
            before
        }
    }
}

/// Whether the values of a name are text.
pub open spec fn readable(fields: Seq<Field>, name: Seq<u8>) -> bool {
    forall|i: int|
        0 <= i < fields.len() && (#[trigger] fields[i]).name == name ==> valid_utf8(fields[i].value)
}

/// Tells whether the values of a name are text.
pub fn is_readable(headers: &Headers, name: &[u8]) -> (r: bool)
    ensures
        r == readable(headers@, name@),
{
    let mut i: usize = 0;
    while i < headers.0.len()
        invariant
            i <= headers.0@.len(),
            forall|j: int|
                0 <= j < i && (#[trigger] headers@[j]).name == name@ ==> valid_utf8(
                    headers@[j].value,
                ),
        decreases headers.0@.len() - i,
    {
        let field: &(Vec<u8>, Vec<u8>, Vec<u8>) = &headers.0[i];
        assert(headers@[i as int] == field_view(*field));
        if bytes_eq(field.1.as_slice(), name) && !matches_utf8(field.2.as_slice()) {
            return false;
        }
        i = i + 1;
    }
    true
}

/// The items of the fields of a name: commas separate them, case and the white space around
/// them do not matter, and empty ones do not count.
pub fn get_comma_header(headers: &Headers, name: &[u8]) -> (r: Vec<Vec<u8>>)
    requires
        readable(headers@, bytes::lowercase(name@)),
    ensures
        bytes::views(r@) == comma_values(headers@, bytes::lowercase(name@)),
{
    let lower: Vec<u8> = to_lowercase(name);
    let mut out: Vec<Vec<u8>> = Vec::new();
    let mut i: usize = 0;
    let ghost fields = headers@;
    assert(bytes::views(out@) =~= comma_values(fields.take(0), lower@));
    while i < headers.0.len()
        invariant
            i <= headers.0@.len(),
            fields == headers@,
            bytes::views(out@) == comma_values(fields.take(i as int), lower@),
        decreases headers.0@.len() - i,
    {
        assert(fields.take(i + 1).drop_last() =~= fields.take(i as int));
        let field: &(Vec<u8>, Vec<u8>, Vec<u8>) = &headers.0[i];
        assert(fields.take(i + 1).last() == field_view(*field));
        if bytes_eq(field.1.as_slice(), lower.as_slice()) {
            let value: Vec<u8> = to_lowercase(field.2.as_slice());
            let items: Vec<Vec<u8>> = trimmed_items(value.as_slice());
            let ghost views = bytes::views(items@);
            let ghost before = bytes::views(out@);
            let mut k: usize = 0;
            assert(bytes::views(out@) =~= before + nonempty(views.take(0)));
            while k < items.len()
                invariant
                    k <= items@.len(),
                    views == bytes::views(items@),
                    bytes::views(out@) == before + nonempty(views.take(k as int)),
                decreases items@.len() - k,
            {
                assert(views.take(k + 1).drop_last() =~= views.take(k as int));
                assert(views.take(k + 1).last() == items@[k as int]@);
                if items[k].len() > 0 {
                    let ghost was = out@;
                    out.push(to_vec(items[k].as_slice()));
                    assert(bytes::views(out@) =~= bytes::views(was).push(items@[k as int]@));
                }
                k = k + 1;
                assert(bytes::views(out@) =~= before + nonempty(views.take(k as int)));
            }
            assert(views.take(k as int) =~= views);
        }
        i = i + 1;
    }
    assert(fields.take(i as int) =~= fields);
    out
}

/// The names and values without those of one name.
pub open spec fn without(headers: Seq<(Seq<u8>, Seq<u8>)>, name: Seq<u8>) -> Seq<
    (Seq<u8>, Seq<u8>),
>
    decreases headers.len(),
{
    if headers.len() == 0 {
        Seq::empty()
    } else if headers.last().0 != name {
        without(headers.drop_last(), name).push(headers.last())
    } else {
        without(headers.drop_last(), name)
    }
}

/// The fields with the values of one name replaced: new fields come last, one for each value.
pub open spec fn with_comma_values(
    fields: Seq<Field>,
    name: Seq<u8>,
    values: Seq<Seq<u8>>,
) -> Result<Seq<Field>, ErrorView> {
    match normalize(
        without(names_and_values(fields), name) + values.map_values(|v: Seq<u8>| (name, v)),
        false,
    ) {
        Ok(n) => Ok(n.fields),
        Err(e) => Err(e),
    }
}

/// Replaces the fields of a name by one field for each of the new values.
pub fn set_comma_header(headers: &Headers, name: &[u8], new_values: Vec<Vec<u8>>) -> (r: Result<
    Headers,
    ProtocolError,
>)
    ensures
        match with_comma_values(headers@, name@, bytes::views(new_values@)) {
            Ok(fields) => r is Ok && r->Ok_0@ == fields,
            Err(e) => r is Err && r->Err_0@ == e,
        },
{
    let all: Vec<(Vec<u8>, Vec<u8>)> = headers.iter();
    let ghost pairs = pairs_view(all@);
    let mut new_headers: Vec<(Vec<u8>, Vec<u8>)> = Vec::new();
    let mut i: usize = 0;
    assert(pairs_view(new_headers@) =~= without(pairs.take(0), name@));
    while i < all.len()
        invariant
            i <= all@.len(),
            pairs == pairs_view(all@),
            pairs_view(new_headers@) == without(pairs.take(i as int), name@),
        decreases all@.len() - i,
    {
        assert(pairs.take(i + 1).drop_last() =~= pairs.take(i as int));
        let ghost before = new_headers@;
        let found_name: &[u8] = all[i].0.as_slice();
        let found_value: &[u8] = all[i].1.as_slice();
        assert(pairs[i as int] == (found_name@, found_value@));
        if !bytes_eq(found_name, name) {
            new_headers.push((to_vec(found_name), to_vec(found_value)));
            assert(pairs_view(new_headers@) =~= pairs_view(before).push(pairs[i as int]));
        }
        i = i + 1;
    }
    assert(pairs.take(i as int) =~= pairs);
    let ghost kept = pairs_view(new_headers@);
    let ghost added = bytes::views(new_values@).map_values(|v: Seq<u8>| (name@, v));
    let mut k: usize = 0;
    assert(kept =~= kept + added.take(0));
    while k < new_values.len()
        invariant
            k <= new_values@.len(),
            added == bytes::views(new_values@).map_values(|v: Seq<u8>| (name@, v)),
            pairs_view(new_headers@) == kept + added.take(k as int),
        decreases new_values@.len() - k,
    {
        let ghost before = new_headers@;
        new_headers.push((to_vec(name), to_vec(new_values[k].as_slice())));
        k = k + 1;
        assert(added[k - 1] == (name@, new_values@[k - 1]@));
        assert(pairs_view(new_headers@) =~= pairs_view(before).push(added[k - 1]));
        assert(pairs_view(new_headers@) =~= kept + added.take(k as int));
    }
    assert(added.take(k as int) =~= added);
    normalize_and_validate(new_headers, false)
}

/// Whether the client waits for an interim response before it sends the body. The expectation
/// of a client before HTTP/1.1 is ignored.
pub open spec fn expects_100_continue(http_version: Seq<u8>, fields: Seq<Field>) -> bool {
    !bytes::precedes(http_version, "1.1".spec_bytes()) && comma_values(
        fields,
        "expect".spec_bytes(),
    ).contains("100-continue".spec_bytes())
}

/// Tells whether a list of byte strings holds one that is equal to `item`.
pub fn contains_item(items: &Vec<Vec<u8>>, item: &[u8]) -> (r: bool)
    ensures
        r == bytes::views(items@).contains(item@),
{
    let ghost views = bytes::views(items@);
    let mut i: usize = 0;
    while i < items.len()
        invariant
            i <= items@.len(),
            views == bytes::views(items@),
            forall|j: int| 0 <= j < i ==> #[trigger] views[j] != item@,
        decreases items@.len() - i,
    {
        assert(views[i as int] == items@[i as int]@);
        if bytes_eq(items[i].as_slice(), item) {
            return true;
        }
        i = i + 1;
    }
    false
}

/// Tells whether a request expects an interim response.
pub fn has_expect_100_continue(request: &Request) -> (r: bool)
    requires
        !bytes::precedes(request.http_version@, "1.1".spec_bytes()) ==> readable(
            request.headers@,
            "expect".spec_bytes(),
        ),
    ensures
        r == expects_100_continue(request.http_version@, request.headers@),
{
    if bytes_before(request.http_version.as_slice(), "1.1".as_bytes()) {
        return false;
    }
    proof {
        lemma_lower_literals();
    }
    let expect: Vec<Vec<u8>> = get_comma_header(&request.headers, "expect".as_bytes());
    contains_item(&expect, "100-continue".as_bytes())
}

/// The names that are looked up are in lower case already.
pub proof fn lemma_lower_literals()
    ensures
        bytes::lowercase("expect".spec_bytes()) == "expect".spec_bytes(),
        bytes::lowercase("connection".spec_bytes()) == "connection".spec_bytes(),
        bytes::lowercase("upgrade".spec_bytes()) == "upgrade".spec_bytes(),
        bytes::lowercase(content_length()) == content_length(),
        bytes::lowercase(transfer_encoding()) == transfer_encoding(),
        bytes::lowercase("chunked".spec_bytes()) == "chunked".spec_bytes(),
{
    reveal_strlit("expect");
    reveal_strlit("connection");
    reveal_strlit("upgrade");
    reveal_strlit("content-length");
    reveal_strlit("transfer-encoding");
    reveal_strlit("chunked");
    is_ascii_spec_bytes("expect");
    is_ascii_spec_bytes("connection");
    is_ascii_spec_bytes("upgrade");
    is_ascii_spec_bytes("content-length");
    is_ascii_spec_bytes("transfer-encoding");
    is_ascii_spec_bytes("chunked");
    assert(bytes::lowercase("expect".spec_bytes()) =~= "expect".spec_bytes());
    assert(bytes::lowercase("connection".spec_bytes()) =~= "connection".spec_bytes());
    assert(bytes::lowercase("upgrade".spec_bytes()) =~= "upgrade".spec_bytes());
    assert(bytes::lowercase(content_length()) =~= content_length());
    assert(bytes::lowercase(transfer_encoding()) =~= transfer_encoding());
    assert(bytes::lowercase("chunked".spec_bytes()) =~= "chunked".spec_bytes());
}

} // verus!
