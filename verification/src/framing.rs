//! What the head of a message says of the rest: how its body is framed, and whether the
//! connection can be used again.
use vstd::prelude::*;
use vstd::string::*;
use vstd::utf8::*;

use crate::bytes;
use crate::bytes::{bytes_before, bytes_eq, parse_digits, COMMA};
use crate::events::{Event, EventView, Request, RequestView, Response, ResponseView};
use crate::headers;
use crate::headers::{contains_item, get_comma_header, Field, Headers};
use crate::text;

verus! {

/// The head of a message.
#[verifier::ext_equal]
pub enum HeadView {
    Request(RequestView),
    Response(ResponseView),
}

impl HeadView {
    pub open spec fn headers(self) -> Seq<Field> {
        match self {
            HeadView::Request(request) => request.headers,
            HeadView::Response(response) => response.headers,
        }
    }

    pub open spec fn http_version(self) -> Seq<u8> {
        match self {
            HeadView::Request(request) => request.http_version,
            HeadView::Response(response) => response.http_version,
        }
    }
}

/// The head of a message: a request or a response.
pub enum RequestOrResponse {
    Request(Request),
    Response(Response),
}

impl View for RequestOrResponse {
    type V = HeadView;

    open spec fn view(&self) -> HeadView {
        match self {
            RequestOrResponse::Request(request) => HeadView::Request(request@),
            RequestOrResponse::Response(response) => HeadView::Response(response@),
        }
    }
}

/// Whether an event is a head that a body follows.
pub open spec fn is_head(event: EventView) -> bool {
    event is Request || event is NormalResponse
}

/// The head that an event is.
pub open spec fn head_of(event: EventView) -> HeadView {
    match event {
        EventView::Request(request) => HeadView::Request(request),
        EventView::NormalResponse(response) => HeadView::Response(response),
        _ => arbitrary(),
    }
}

impl RequestOrResponse {
    pub fn headers(&self) -> (r: &Headers)
        ensures
            r@ == self@.headers(),
    {
        match self {
            RequestOrResponse::Request(request) => &request.headers,
            RequestOrResponse::Response(response) => &response.headers,
        }
    }

    pub fn http_version(&self) -> (r: &Vec<u8>)
        ensures
            r@ == self@.http_version(),
    {
        match self {
            RequestOrResponse::Request(request) => &request.http_version,
            RequestOrResponse::Response(response) => &response.http_version,
        }
    }

    /// Takes the head out of an event.
    pub fn from_event(event: Event) -> (r: Self)
        requires
            is_head(event@),
        ensures
            r@ == head_of(event@),
    {
        match event {
            Event::Request(request) => RequestOrResponse::Request(request),
            Event::NormalResponse(response) => RequestOrResponse::Response(response),
            _ => RequestOrResponse::Response(Response::default()),
        }
    }
}

impl From<Request> for RequestOrResponse {
    fn from(value: Request) -> (r: Self) {
        RequestOrResponse::Request(value)
    }
}

impl vstd::std_specs::convert::FromSpecImpl<Request> for RequestOrResponse {
    open spec fn obeys_from_spec() -> bool {
        true
    }

    open spec fn from_spec(value: Request) -> Self {
        RequestOrResponse::Request(value)
    }
}

impl From<Response> for RequestOrResponse {
    fn from(value: Response) -> (r: Self) {
        RequestOrResponse::Response(value)
    }
}

impl vstd::std_specs::convert::FromSpecImpl<Response> for RequestOrResponse {
    open spec fn obeys_from_spec() -> bool {
        true
    }

    open spec fn from_spec(value: Response) -> Self {
        RequestOrResponse::Response(value)
    }
}

/// Whether a message leaves the connection open for another: one of HTTP/1.1 that does not say
/// `close`.
pub open spec fn keeps_alive(head: HeadView) -> bool {
    !headers::comma_values(head.headers(), "connection".spec_bytes()).contains(
        "close".spec_bytes(),
    ) && !bytes::precedes(head.http_version(), "1.1".spec_bytes())
}

/// Tells whether a message leaves the connection open for another.
pub fn _keep_alive(event: RequestOrResponse) -> (r: bool)
    requires
        headers::readable(event@.headers(), "connection".spec_bytes()),
    ensures
        r == keeps_alive(event@),
{
    proof {
        headers::lemma_lower_literals();
    }
    let connection: Vec<Vec<u8>> = get_comma_header(event.headers(), "connection".as_bytes());
    if contains_item(&connection, "close".as_bytes()) {
        return false;
    }
    !bytes_before(event.http_version().as_slice(), "1.1".as_bytes())
}

/// How a body is framed: by its length, in chunks, or by the end of the connection.
#[derive(Debug, Clone, Copy, PartialEq, Eq, Structural)]
pub enum Framing {
    ContentLength(isize),
    Chunked,
    Http10,
}

impl Framing {
    pub open spec fn parts_spec(self) -> (Seq<char>, isize) {
        match self {
            Framing::ContentLength(length) => ("content-length"@, length),
            Framing::Chunked => ("chunked"@, 0),
            Framing::Http10 => ("http/1.0"@, 0),
        }
    }

    /// The name of the framing, and the length where it is known.
    pub fn parts(&self) -> (r: (&'static str, isize))
        ensures
            (r.0@, r.1) == self.parts_spec(),
    {
        match self {
            Framing::ContentLength(length) => ("content-length", *length),
            Framing::Chunked => ("chunked", 0),
            Framing::Http10 => ("http/1.0", 0),
        }
    }
}

/// Whether a response has no body whatever its headers say.
pub open spec fn is_bodiless(request_method: Seq<u8>, status_code: u16) -> bool {
    ||| status_code == 204
    ||| status_code == 304
    ||| request_method == "HEAD".spec_bytes()
    ||| request_method == "CONNECT".spec_bytes() && 200 <= status_code < 300
}

/// The codings, and the lengths, that a head names.
pub open spec fn codings(head: HeadView) -> Seq<Seq<u8>> {
    headers::comma_values(head.headers(), headers::transfer_encoding())
}

pub open spec fn lengths(head: HeadView) -> Seq<Seq<u8>> {
    headers::comma_values(head.headers(), headers::content_length())
}

/// How the body after a head is framed. A transfer coding counts more than a length. Without
/// either a request has no body, and a response lasts until the connection is closed.
pub open spec fn framing(request_method: Seq<u8>, head: HeadView) -> Framing {
    if head matches HeadView::Response(response) && is_bodiless(
        request_method,
        response.status_code,
    ) {
        Framing::ContentLength(0)
    } else if codings(head).len() > 0 {
        Framing::Chunked
    } else if lengths(head).len() > 0 {
        Framing::ContentLength(bytes::digits_value(lengths(head)[0], 10) as isize)
    } else if head is Request {
        Framing::ContentLength(0)
    } else {
        Framing::Http10
    }
}

/// Whether a head has a framing: an interim response has none, nor has a length that no machine
/// integer holds.
pub open spec fn has_framing(request_method: Seq<u8>, head: HeadView) -> bool {
    ||| head matches HeadView::Response(response) && is_bodiless(
        request_method,
        response.status_code,
    )
    ||| {
        &&& head matches HeadView::Response(response) ==> response.status_code >= 200
        &&& codings(head).len() == 0 && lengths(head).len() > 0 ==> bytes::digits_value(
            lengths(head)[0],
            10,
        ) <= isize::MAX
    }
}

pub proof fn lemma_ascii_utf8(s: Seq<u8>)
    requires
        forall|i: int| 0 <= i < s.len() ==> #[trigger] s[i] < 128,
    ensures
        valid_utf8(s),
    decreases s.len(),
{
    if s.len() > 0 {
        text::lemma_ascii_scalar(s);
        lemma_ascii_utf8(s.drop_first());
    }
}

/// The fields that frame a body are text.
pub proof fn lemma_framing_readable(fields: Seq<Field>)
    requires
        headers::valid_fields(fields),
    ensures
        headers::readable(fields, headers::content_length()),
        headers::readable(fields, headers::transfer_encoding()),
{
    assert forall|i: int|
        0 <= i < fields.len() && (#[trigger] fields[i]).name
            == headers::content_length() implies valid_utf8(fields[i].value) by {
        assert forall|j: int| 0 <= j < fields[i].value.len() implies #[trigger] fields[i].value[j]
            < 128 by {
            assert(bytes::is_digit(fields[i].value[j]));
        }
        lemma_ascii_utf8(fields[i].value);
    }
    encode_utf8_valid_utf8("chunked"@);
}

/// A list that is one number is that number.
pub proof fn lemma_number_list(value: Seq<u8>)
    requires
        bytes::is_digits(value),
    ensures
        headers::nonempty(headers::list_items(bytes::lowercase(value))) == seq![value],
        headers::list_items(value) == seq![value],
{
    assert(bytes::lowercase(value) =~= value) by {
        assert forall|i: int| 0 <= i < value.len() implies bytes::lower(value[i]) == value[i] by {
            assert(bytes::is_digit(value[i]));
        }
    }
    assert(!value.contains(COMMA)) by {
        assert forall|i: int| 0 <= i < value.len() implies value[i] != COMMA by {
            assert(bytes::is_digit(value[i]));
        }
    }
    bytes::lemma_split_whole(value, COMMA);
    assert forall|i: int| 0 <= i < value.len() implies (#[trigger] value[i]) < 128
        && !text::is_white_space(value[i] as u32) by {
        assert(bytes::is_digit(value[i]));
    }
    text::lemma_trim_solid(value);
    let items = headers::list_items(value);
    assert(items =~= seq![value]);
    assert(items.drop_last() =~= Seq::<Seq<u8>>::empty());
    assert(headers::nonempty(items.drop_last()) =~= Seq::<Seq<u8>>::empty());
    assert(headers::nonempty(items) =~= seq![value]);
}

/// The lengths that a head names are numbers.
pub proof fn lemma_lengths_digits(fields: Seq<Field>)
    requires
        forall|i: int|
            0 <= i < fields.len() && (#[trigger] fields[i]).name == headers::content_length()
                ==> bytes::is_digits(fields[i].value),
    ensures
        forall|i: int|
            0 <= i < headers::comma_values(fields, headers::content_length()).len()
                ==> bytes::is_digits(
                #[trigger] headers::comma_values(fields, headers::content_length())[i],
            ),
    decreases fields.len(),
{
    if fields.len() > 0 {
        assert forall|i: int|
            0 <= i < fields.drop_last().len() && (#[trigger] fields.drop_last()[i]).name
                == headers::content_length() implies bytes::is_digits(
            fields.drop_last()[i].value,
        ) by {
            assert(fields[i].name == headers::content_length());
        }
        lemma_lengths_digits(fields.drop_last());
        if fields.last().name == headers::content_length() {
            assert(fields[fields.len() - 1].name == headers::content_length());
            lemma_number_list(fields.last().value);
        }
        let all = headers::comma_values(fields, headers::content_length());
        let before = headers::comma_values(fields.drop_last(), headers::content_length());
        assert forall|i: int| 0 <= i < all.len() implies bytes::is_digits(#[trigger] all[i]) by {
            if i < before.len() {
                assert(all[i] == before[i]);
            } else {
                assert(all[i] == fields.last().value);
            }
        }
    }
}

/// Tells whether a response has no body whatever its headers say.
fn has_no_body(request_method: &[u8], status_code: u16) -> (r: bool)
    ensures
        r == is_bodiless(request_method@, status_code),
{
    status_code == 204 || status_code == 304 || bytes_eq(request_method, "HEAD".as_bytes()) || (
    bytes_eq(request_method, "CONNECT".as_bytes()) && 200 <= status_code && status_code < 300)
}

/// The length that the fields of a head name.
enum NamedLength {
    /// There is a transfer coding, which counts more.
    Coded,
    /// There is a length, and a machine integer holds it.
    Length(isize),
    /// There is a length, and no machine integer holds it.
    TooLong,
    /// There is neither.
    Missing,
}

fn named_length(event: &RequestOrResponse) -> (r: NamedLength)
    ensures
        match r {
            NamedLength::Coded => codings(event@).len() > 0,
            NamedLength::Length(length) => codings(event@).len() == 0 && lengths(event@).len() > 0
                && length >= 0 && length == bytes::digits_value(lengths(event@)[0], 10),
            NamedLength::TooLong => codings(event@).len() == 0 && lengths(event@).len() > 0
                && bytes::digits_value(lengths(event@)[0], 10) > isize::MAX,
            NamedLength::Missing => codings(event@).len() == 0 && lengths(event@).len() == 0,
        },
{
    let headers: &Headers = event.headers();
    proof {
        use_type_invariant(headers);
        lemma_framing_readable(headers@);
        headers::lemma_lower_literals();
    }
    let transfer_encodings: Vec<Vec<u8>> = get_comma_header(
        headers,
        "transfer-encoding".as_bytes(),
    );
    assert(transfer_encodings@.len() == bytes::views(transfer_encodings@).len());
    if transfer_encodings.len() > 0 {
        return NamedLength::Coded;
    }
    let content_lengths: Vec<Vec<u8>> = get_comma_header(headers, "content-length".as_bytes());
    assert(content_lengths@.len() == bytes::views(content_lengths@).len());
    if content_lengths.len() == 0 {
        return NamedLength::Missing;
    }
    let ghost first = content_lengths@[0]@;
    proof {
        assert(first == lengths(event@)[0]);
        lemma_lengths_digits(headers@);
        assert forall|i: int| 0 <= i < first.len() implies bytes::is_hex_digit(
            #[trigger] first[i],
        ) by {
            assert(bytes::is_digit(first[i]));
        }
    }
    match parse_digits(content_lengths[0].as_slice(), 10, isize::MAX as usize) {
        Some(length) => NamedLength::Length(length as isize),
        None => NamedLength::TooLong,
    }
}

/// Tells whether a head has a framing.
pub fn is_framed(request_method: &[u8], event: &RequestOrResponse) -> (r: bool)
    ensures
        r == has_framing(request_method@, event@),
{
    if let RequestOrResponse::Response(response) = event {
        if has_no_body(request_method, response.status_code) {
            return true;
        }
        if response.status_code < 200 {
            return false;
        }
    }
    match named_length(event) {
        NamedLength::TooLong => false,
        _ => true,
    }
}

/// Finds how the body after a head is framed.
pub fn _body_framing(request_method: &[u8], event: RequestOrResponse) -> (r: Framing)
    requires
        has_framing(request_method@, event@),
    ensures
        r == framing(request_method@, event@),
        r matches Framing::ContentLength(length) ==> length >= 0,
{
    if let RequestOrResponse::Response(response) = &event {
        if has_no_body(request_method, response.status_code) {
            return Framing::ContentLength(0);
        }
    }
    match named_length(&event) {
        NamedLength::Coded => Framing::Chunked,
        NamedLength::Length(length) => Framing::ContentLength(length),
        _ => match event {
            RequestOrResponse::Request(_) => Framing::ContentLength(0),
            RequestOrResponse::Response(_) => Framing::Http10,
        },
    }
}

} // verus!
