//! What is written, byte by byte: heads, header lines, chunks and ends.
use vstd::prelude::*;
use vstd::string::*;

use crate::bytes;
use crate::events::{EventView, RequestView, ResponseView};
use crate::headers::Field;
use crate::util::ErrorView;
use crate::writers;
use crate::writers::WriterView;

verus! {

/// A header line: the name as it was written, a colon, a space, the value and the line end.
spec fn line_of(f: Field) -> Seq<u8> {
    f.raw_name + seq![0x3au8, 0x20] + f.value + seq![0x0du8, 0x0a]
}

/// Whether a field gives the host.
spec fn gives_host(f: Field) -> bool {
    f.name == "host".spec_bytes()
}

proof fn lemma_lines_append(a: Seq<Field>, b: Seq<Field>, hosts: bool)
    ensures
        writers::field_lines(a + b, hosts) == writers::field_lines(a, hosts)
            + writers::field_lines(b, hosts),
    decreases b.len(),
{
    if b.len() == 0 {
        assert(a + b =~= a);
        assert(writers::field_lines(a, hosts) + writers::field_lines(b, hosts)
            =~= writers::field_lines(a, hosts));
    } else {
        lemma_lines_append(a, b.drop_last(), hosts);
        assert((a + b).drop_last() =~= a + b.drop_last());
        assert((a + b).last() == b.last());
        assert(writers::field_lines(a + b, hosts) =~= writers::field_lines(a, hosts)
            + writers::field_lines(b, hosts));
    }
}

proof fn lemma_no_hosts(fields: Seq<Field>)
    requires
        forall|i: int| 0 <= i < fields.len() ==> !gives_host(#[trigger] fields[i]),
    ensures
        writers::field_lines(fields, true) == Seq::<u8>::empty(),
    decreases fields.len(),
{
    if fields.len() > 0 {
        let front = fields.drop_last();
        assert forall|i: int| 0 <= i < front.len() implies !gives_host(#[trigger] front[i]) by {
            assert(front[i] == fields[i]);
        }
        lemma_no_hosts(front);
        assert(!gives_host(fields[fields.len() - 1]));
    }
}

proof fn lemma_one_line(f: Field)
    ensures
        writers::field_lines(seq![f], gives_host(f)) == line_of(f),
        writers::field_lines(seq![f], !gives_host(f)) == Seq::<u8>::empty(),
{
    let one = seq![f];
    assert(one.drop_last() =~= Seq::<Field>::empty());
    assert(writers::field_lines(one.drop_last(), true) =~= Seq::<u8>::empty());
    assert(writers::field_lines(one.drop_last(), false) =~= Seq::<u8>::empty());
    assert(writers::field_lines(one, gives_host(f)) =~= line_of(f));
}

/// Header fields are written line by line, in order, with a blank line at the end; but the host is
/// written before the fields that come before it.
pub proof fn law_written_fields(before: Seq<Field>, f: Field, after: Seq<Field>)
    ensures
        writers::written_headers(Seq::empty()) == seq![0x0du8, 0x0a],
        ({
            let host = "host".spec_bytes();
            let line = f.raw_name + seq![0x3au8, 0x20] + f.value + seq![0x0du8, 0x0a];
            &&& f.name != host ==> writers::written_headers(before.push(f))
                == writers::written_headers(before).drop_last().drop_last() + line + seq![
                0x0du8,
                0x0a,
            ]
            &&& f.name == host && (forall|i: int|
                0 <= i < before.len() ==> (#[trigger] before[i]).name != host)
                ==> writers::written_headers(before + seq![f] + after) == line
                + writers::written_headers(before + after)
        }),
{
    assert(writers::written_headers(Seq::empty()) =~= seq![0x0du8, 0x0a]);
    lemma_one_line(f);
    if !gives_host(f) {
        let all = before.push(f);
        let hosts = writers::field_lines(before, true);
        let others = writers::field_lines(before, false);
        assert(all =~= before + seq![f]);
        lemma_lines_append(before, seq![f], true);
        lemma_lines_append(before, seq![f], false);
        assert(writers::field_lines(all, true) =~= hosts);
        assert(writers::written_headers(before).drop_last().drop_last() =~= hosts + others);
        assert(writers::written_headers(all) =~= hosts + others + line_of(f) + seq![0x0du8, 0x0a]);
    } else if forall|i: int|
        0 <= i < before.len() ==> (#[trigger] before[i]).name != "host".spec_bytes() {
        assert forall|i: int| 0 <= i < before.len() implies !gives_host(#[trigger] before[i]) by {}
        let all = before + seq![f] + after;
        lemma_no_hosts(before);
        lemma_lines_append(before + seq![f], after, true);
        lemma_lines_append(before + seq![f], after, false);
        lemma_lines_append(before, seq![f], true);
        lemma_lines_append(before, seq![f], false);
        lemma_lines_append(before, after, true);
        lemma_lines_append(before, after, false);
        assert(writers::written_headers(all) =~= line_of(f) + writers::written_headers(
            before + after,
        ));
    }
}

/// The head of a request is its first line and its fields. Only HTTP/1.1 is written.
pub proof fn law_written_requests(r: RequestView)
    ensures
        writers::written_request(r) is Ok <==> r.http_version == seq![0x31u8, 0x2e, 0x31],
        writers::written_request(r) matches Ok(data) ==> data == r.method + seq![0x20u8] + r.target
            + seq![0x20u8, 0x48, 0x54, 0x54, 0x50, 0x2f, 0x31, 0x2e, 0x31, 0x0d, 0x0a]
            + writers::written_headers(r.headers),
{
    crate::roundtrip::lemma_version_literals();
    if let Ok(data) = writers::written_request(r) {
        assert(data =~= r.method + seq![0x20u8] + r.target + seq![
            0x20u8, 0x48, 0x54, 0x54, 0x50, 0x2f, 0x31, 0x2e, 0x31, 0x0d, 0x0a,
        ] + writers::written_headers(r.headers));
    }
}

/// The head of a response is its first line, with the code in digits, and its fields. Only HTTP/1.1
/// is written.
pub proof fn law_written_responses(r: ResponseView)
    ensures
        writers::written_response(r) is Ok <==> r.http_version == seq![0x31u8, 0x2e, 0x31],
        writers::written_response(r) matches Ok(data) ==> data == seq![
            0x48u8, 0x54, 0x54, 0x50, 0x2f, 0x31, 0x2e, 0x31, 0x20,
        ] + bytes::decimal(r.status_code as nat) + seq![0x20u8] + r.reason + seq![0x0du8, 0x0a]
            + writers::written_headers(r.headers),
{
    crate::roundtrip::lemma_version_literals();
    if let Ok(data) = writers::written_response(r) {
        assert(data =~= seq![0x48u8, 0x54, 0x54, 0x50, 0x2f, 0x31, 0x2e, 0x31, 0x20]
            + bytes::decimal(r.status_code as nat) + seq![0x20u8] + r.reason + seq![0x0du8, 0x0a]
            + writers::written_headers(r.headers));
    }
}

/// A piece of a body in chunks is one chunk: its size, its data, and line ends. No data is nothing,
/// for an empty chunk would be the end. The end is a size of zero and the trailing fields.
pub proof fn law_written_chunks(data: Seq<u8>, fields: Seq<Field>)
    ensures
        writers::written_data(WriterView::Chunked, data) == (
            WriterView::Chunked,
            Ok::<Seq<u8>, ErrorView>(
                if data.len() == 0 {
                    Seq::empty()
                } else {
                    bytes::hexadecimal(data.len()) + seq![0x0du8, 0x0a] + data + seq![0x0du8, 0x0a]
                },
            ),
        ),
        writers::written_end(WriterView::Chunked, fields) == Ok::<Seq<u8>, ErrorView>(
            seq![0x30u8, 0x0d, 0x0a] + writers::written_headers(fields),
        ),
{
    crate::roundtrip::lemma_version_literals();
    assert(bytes::crlf() =~= seq![0x0du8, 0x0a]);
    assert("0".spec_bytes() + bytes::crlf() =~= seq![0x30u8, 0x0d, 0x0a]);
}

/// Without chunks a body is written as it is, its end is nothing, and no fields can trail it. One of
/// announced length can be neither longer nor shorter.
pub proof fn law_written_plainly(length: int, data: Seq<u8>, fields: Seq<Field>)
    ensures
        writers::written_data(WriterView::Http10, data) == (
            WriterView::Http10,
            Ok::<Seq<u8>, ErrorView>(data),
        ),
        writers::written_end(WriterView::Http10, fields) is Ok <==> fields.len() == 0,
        writers::written_end(WriterView::Http10, Seq::empty()) == Ok::<Seq<u8>, ErrorView>(
            Seq::empty(),
        ),
        writers::written_data(WriterView::ContentLength { length }, data).1 == Ok::<
            Seq<u8>,
            ErrorView,
        >(data) <==> data.len() <= length,
        writers::written_data(WriterView::ContentLength { length }, data).1 is Ok <==> data.len()
            <= length,
        writers::written_end(WriterView::ContentLength { length }, fields) is Ok <==> length == 0
            && fields.len() == 0,
        writers::written_end(WriterView::ContentLength { length: 0 }, Seq::empty()) == Ok::<
            Seq<u8>,
            ErrorView,
        >(Seq::empty()),
{
}

/// What cannot be written has status 400.
pub proof fn law_what_cannot_be_written(writer: WriterView, event: EventView)
    ensures
        writers::written(writer, event).1 matches Err(e) ==> (e matches ErrorView::Local {
            code,
            ..
        } && code == 400),
{
}

/// Each event is written as what it is; writing heads and ends does not change the writer.
pub proof fn law_written_events(writer: WriterView, event: EventView)
    ensures
        match event {
            EventView::Request(r) => writers::written(writer, event) == (
                writer,
                writers::written_request(r),
            ),
            EventView::NormalResponse(r) => writers::written(writer, event) == (
                writer,
                writers::written_response(r),
            ),
            EventView::InformationalResponse(r) => writers::written(writer, event) == (
                writer,
                writers::written_response(r),
            ),
            EventView::Data(d) => writers::written(writer, event) == writers::written_data(
                writer,
                d.data,
            ),
            EventView::EndOfMessage(fields) => writers::written(writer, event) == (
                writer,
                writers::written_end(writer, fields),
            ),
            _ => true,
        },
{
}

} // verus!
