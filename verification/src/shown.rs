//! How header fields and requests are shown to people: with names and values as text, in the
//! layout that std's builder for such output gives.
use core::fmt::{DebugStruct, Formatter};

use vstd::prelude::*;
use vstd::utf8::*;

use crate::events::{Request, RequestView};
use crate::headers;
use crate::headers::{Field, Headers};

verus! {

/// std's `core::fmt::Formatter`: where output goes, and in which layout.
#[verifier::external_type_specification]
#[verifier::external_body]
pub struct ExFormatter<'a>(core::fmt::Formatter<'a>);

/// std's `core::fmt::Error`: that the output could not be written.
#[verifier::external_type_specification]
#[verifier::external_body]
pub struct ExFmtError(core::fmt::Error);

/// std's `core::fmt::DebugStruct`: a builder that shows a struct with a name and fields.
#[verifier::external_type_specification]
#[verifier::external_body]
pub struct ExDebugStruct<'a, 'b: 'a>(core::fmt::DebugStruct<'a, 'b>);

/// What stands behind the name of a field that is shown.
pub enum Shown {
    Text(Seq<char>),
    Headers(Seq<Field>),
}

/// The name of the struct that a builder shows.
pub uninterp spec fn title(shown: DebugStruct<'_, '_>) -> Seq<char>;

/// The fields that a builder has been given so far, in order.
pub uninterp spec fn entries(shown: DebugStruct<'_, '_>) -> Seq<(Seq<char>, Shown)>;

/// What `String::from_utf8_lossy` makes of bytes that are not UTF-8.
pub uninterp spec fn lossy(s: Seq<u8>) -> Seq<char>;

/// Bytes as text.
pub open spec fn text(s: Seq<u8>) -> Seq<char> {
    if valid_utf8(s) {
        decode_utf8(s)
    } else {
        lossy(s)
    }
}

/// How header fields are shown: each under its name as it was written.
pub open spec fn shown_fields(fields: Seq<Field>) -> Seq<(Seq<char>, Shown)> {
    fields.map_values(|f: Field| (text(f.raw_name), Shown::Text(text(f.value))))
}

/// How a request is shown.
pub open spec fn shown_request(r: RequestView) -> Seq<(Seq<char>, Shown)> {
    seq![
        ("method"@, Shown::Text(text(r.method))),
        ("headers"@, Shown::Headers(r.headers)),
        ("target"@, Shown::Text(text(r.target))),
        ("http_version"@, Shown::Text(text(r.http_version))),
    ]
}

/// `String::from_utf8_lossy`. It is claimed that UTF-8 is decoded, and that what becomes of
/// other bytes depends on them alone.
#[verifier::external_body]
fn to_text(s: &[u8]) -> (r: String)
    ensures
        valid_utf8(s@) ==> r@ == decode_utf8(s@),
        !valid_utf8(s@) ==> r@ == lossy(s@),
{
    String::from_utf8_lossy(s).into_owned()
}

/// `Formatter::debug_struct`. It is claimed that the builder shows a struct of the given name,
/// as yet without fields. What is written to the formatter meanwhile is left unsaid.
#[verifier::external_body]
fn start<'a, 'b>(f: &'a mut Formatter<'b>, name: &str) -> (r: DebugStruct<'a, 'b>)
    ensures
        title(r) == name@,
        entries(r) == Seq::<(Seq<char>, Shown)>::empty(),
{
    f.debug_struct(name)
}

/// `DebugStruct::field` with a text. It is claimed that the field is added behind the others.
#[verifier::external_body]
fn show_text(shown: &mut DebugStruct<'_, '_>, name: &str, value: &str)
    ensures
        title(*final(shown)) == title(*old(shown)),
        entries(*final(shown)) == entries(*old(shown)).push((name@, Shown::Text(value@))),
{
    shown.field(name, &value);
}

/// `DebugStruct::field` with header fields. It is claimed that the field is added behind the
/// others.
#[verifier::external_body]
fn show_headers(shown: &mut DebugStruct<'_, '_>, name: &str, value: &Headers)
    ensures
        title(*final(shown)) == title(*old(shown)),
        entries(*final(shown)) == entries(*old(shown)).push((name@, Shown::Headers(value@))),
{
    shown.field(name, value);
}

/// `DebugStruct::finish`. Whether the output could be written depends on where it goes, so
/// nothing is claimed of the result.
#[verifier::external_body]
fn finish(shown: &mut DebugStruct<'_, '_>) -> (r: core::fmt::Result) {
    shown.finish()
}

/// Shows header fields.
pub fn add_fields(shown: &mut DebugStruct<'_, '_>, headers: &Headers)
    ensures
        title(*final(shown)) == title(*old(shown)),
        entries(*final(shown)) == entries(*old(shown)) + shown_fields(headers@),
{
    let items: Vec<&(Vec<u8>, Vec<u8>, Vec<u8>)> = headers.raw_items();
    let mut i: usize = 0;
    while i < items.len()
        invariant
            i <= items@.len(),
            items@.len() == headers@.len(),
            forall|j: int|
                0 <= j < items@.len() ==> headers::field_view(*#[trigger] items@[j]) == headers@[j],
            title(*shown) == title(*old(shown)),
            entries(*shown) == entries(*old(shown)) + shown_fields(headers@.take(i as int)),
        decreases items@.len() - i,
    {
        let item: &(Vec<u8>, Vec<u8>, Vec<u8>) = items[i];
        let name: String = to_text(item.0.as_slice());
        let value: String = to_text(item.2.as_slice());
        show_text(shown, name.as_str(), value.as_str());
        assert(headers::field_view(*items@[i as int]) == headers@[i as int]);
        assert(shown_fields(headers@.take(i + 1)) =~= shown_fields(headers@.take(i as int)).push(
            (name@, Shown::Text(value@)),
        ));
        i = i + 1;
    }
    assert(headers@.take(i as int) =~= headers@);
}

/// Shows the parts of a request.
pub fn add_request(shown: &mut DebugStruct<'_, '_>, request: &Request)
    ensures
        title(*final(shown)) == title(*old(shown)),
        entries(*final(shown)) == entries(*old(shown)) + shown_request(request@),
{
    let method: String = to_text(request.method.as_slice());
    let target: String = to_text(request.target.as_slice());
    let http_version: String = to_text(request.http_version.as_slice());
    show_text(shown, "method", method.as_str());
    show_headers(shown, "headers", &request.headers);
    show_text(shown, "target", target.as_str());
    show_text(shown, "http_version", http_version.as_str());
    assert(entries(*shown) =~= entries(*old(shown)) + shown_request(request@));
}

impl core::fmt::Debug for Headers {
    fn fmt(&self, f: &mut Formatter<'_>) -> (r: core::fmt::Result) {
        let mut shown: DebugStruct<'_, '_> = start(f, "Headers");
        add_fields(&mut shown, self);
        finish(&mut shown)
    }
}

impl core::fmt::Debug for Request {
    fn fmt(&self, f: &mut Formatter<'_>) -> (r: core::fmt::Result) {
        let mut shown: DebugStruct<'_, '_> = start(f, "Request");
        add_request(&mut shown, self);
        finish(&mut shown)
    }
}

} // verus!
