//! How received data is taken: what is kept, when reading waits or ends, whose fault an error is,
//! and how bodies are cut out of the data.
use vstd::prelude::*;
use vstd::utf8::*;

use crate::abnf;
use crate::abnf::Class;
use crate::bytes;
use crate::bytes::{CR, HTAB, LF, SEMICOLON, SP};
use crate::connection;
use crate::connection::ConnectionView;
use crate::events::{DataView, EventView};
use crate::headers;
use crate::readers;
use crate::readers::{ReaderView, Reading};
use crate::receivebuffer;
use crate::state::State;
use crate::util::ErrorView;

verus! {

/// Received data is kept behind what is there; no data means that the peer has closed, and after
/// that there can be no more. Two pieces are kept as one would be.
pub proof fn law_received_data_is_kept(c: ConnectionView, a: Seq<u8>, b: Seq<u8>)
    requires
        a.len() > 0,
        b.len() > 0,
    ensures
        connection::fed(c, Seq::empty()) == (ConnectionView { closed: true, ..c }, true),
        c.closed ==> connection::fed(c, a) == (c, false),
        !c.closed ==> {
            &&& connection::fed(c, a) == (ConnectionView { buffer: c.buffer + a, ..c }, true)
            &&& connection::fed(connection::fed(c, a).0, b) == connection::fed(c, a + b)
        },
{
    assert(c.buffer + a + b =~= c.buffer + (a + b));
}

proof fn lemma_no_pause_is_read(reader: ReaderView, buffer: Seq<u8>)
    ensures
        readers::reading(reader, buffer).result matches Ok(Some(event)) ==> connection::is_news(
            event,
        ),
{
}

/// Reading pauses exactly if the peer is done and has sent data of its next message, or if it has
/// left the protocol, or may; then nothing changes.
pub proof fn law_pauses(c: ConnectionView)
    ensures
        connection::received(c).1 == Ok::<EventView, ErrorView>(EventView::Paused)
            <==> c.their_state() == State::MightSwitchProtocol || c.their_state()
            == State::SwitchedProtocol || (c.their_state() == State::Done && c.buffer.len() > 0),
        connection::received(c).1 == Ok::<EventView, ErrorView>(EventView::Paused)
            ==> connection::received(c).0 == c,
{
    lemma_no_pause_is_read(c.reader->0, c.buffer);
    let (first, r) = connection::extracted(c);
    if let Ok(event) = r {
        assert(connection::accepted(first, event).1 matches Ok(e) ==> e == event);
    }
}

/// Where the data holds no whole event, more is asked for, as long as the peer can send more and
/// what is there is within the limit. Above the limit the peer is at fault, with status 431; so
/// it is if it has closed in the middle.
pub proof fn law_more_data(c: ConnectionView)
    requires
        c.their_state() != State::Error,
        c.their_state() != State::MightSwitchProtocol,
        c.their_state() != State::SwitchedProtocol,
        c.their_state() != State::Done || c.buffer.len() == 0,
        readers::reading(c.reader->0, c.buffer).result == Ok::<Option<EventView>, ErrorView>(None),
        !c.closed || readers::reading(c.reader->0, c.buffer).buffer.len() > 0,
    ensures
        ({
            let reading = readers::reading(c.reader->0, c.buffer);
            let (after, r) = connection::received(c);
            &&& reading.buffer.len() > c.max_incomplete_event_size ==> (r matches Err(
                ErrorView::Remote { code, .. },
            ) && code == 431)
            &&& reading.buffer.len() <= c.max_incomplete_event_size && c.closed ==> (r matches Err(
                ErrorView::Remote { code, .. },
            ) && code == 400)
            &&& reading.buffer.len() <= c.max_incomplete_event_size && !c.closed ==> {
                &&& r == Ok::<EventView, ErrorView>(EventView::NeedData)
                &&& after == (ConnectionView {
                    reader: Some(reading.reader),
                    buffer: reading.buffer,
                    ..c
                })
            }
        }),
{
}

/// Where the peer has closed and all its data is used, a body that lasts until then has ended; a
/// body of which more was announced is broken off, which is the peer's fault. Between messages the
/// end of the data is the end of the connection; a server that still has to respond may not close.
pub proof fn law_end_of_data(c: ConnectionView)
    requires
        connection::healthy(c),
        c.their_state() != State::Error,
        c.their_state() != State::MightSwitchProtocol,
        c.their_state() != State::SwitchedProtocol,
        c.their_state() != State::Done || c.buffer.len() == 0,
        c.closed,
        readers::reading(c.reader->0, c.buffer).result == Ok::<Option<EventView>, ErrorView>(None),
        readers::reading(c.reader->0, c.buffer).buffer.len() == 0,
    ensures
        ({
            let (after, r) = connection::received(c);
            let state = c.their_state();
            match readers::reading(c.reader->0, c.buffer).reader {
                ReaderView::ContentLength { .. } => r matches Err(
                    ErrorView::Remote { code, .. },
                ) && code == 400,
                ReaderView::Chunked { .. } => r matches Err(ErrorView::Remote { code, .. }) && code
                    == 400,
                ReaderView::Http10 => state == State::SendBody ==> r == Ok::<EventView, ErrorView>(
                    EventView::EndOfMessage(Seq::empty()),
                ),
                _ => if state == State::Idle || state == State::Done || state == State::MustClose
                    || state == State::Closed {
                    &&& r == Ok::<EventView, ErrorView>(EventView::ConnectionClosed)
                    &&& after.their_state() == State::Closed
                } else {
                    r matches Err(ErrorView::Remote { code, .. }) && code == 400
                },
            }
        }),
{
}

/// A whole event in the data is handed on, with what it does to the states. One that they do not
/// allow, and an error in the data, is the peer's fault, with the same message and status.
pub proof fn law_events_are_handed_on(c: ConnectionView)
    requires
        c.their_state() != State::Error,
        c.their_state() != State::MightSwitchProtocol,
        c.their_state() != State::SwitchedProtocol,
        c.their_state() != State::Done || c.buffer.len() == 0,
        readers::reading(c.reader->0, c.buffer).result != Ok::<Option<EventView>, ErrorView>(None),
    ensures
        ({
            let reading = readers::reading(c.reader->0, c.buffer);
            let rest = ConnectionView {
                reader: Some(reading.reader),
                buffer: reading.buffer,
                ..c
            };
            let (after, r) = connection::received(c);
            let same = |a: ErrorView, b: ErrorView|
                match (a, b) {
                    (
                        ErrorView::Remote { message, code },
                        ErrorView::Local { message: text, code: status },
                    ) => message == text && code == status,
                    (
                        ErrorView::Remote { message, code },
                        ErrorView::Remote { message: text, code: status },
                    ) => message == text && code == status,
                    _ => false,
                };
            match reading.result {
                Ok(event) => match connection::after_event(rest, c.their_role(), event->0) {
                    (next, Ok(_)) => after == next && r == Ok::<EventView, ErrorView>(event->0),
                    (_, Err(e)) => r is Err && same(r->Err_0, e) && after.their_state()
                        == State::Error,
                },
                Err(e) => r is Err && same(r->Err_0, e) && after.their_state() == State::Error,
            }
        }),
{
    lemma_no_pause_is_read(c.reader->0, c.buffer);
}

/// A body of announced length is what comes first of the data, up to that length; what is more is
/// left. Once all has come the message ends, and the data is left alone.
pub proof fn law_measured_bodies(length: nat, remaining: nat, data: Seq<u8>, rest: Seq<u8>)
    requires
        0 < data.len() <= remaining,
        data.len() == remaining || rest.len() == 0,
    ensures
        readers::reading(ReaderView::ContentLength { length, remaining }, data + rest) == (Reading {
            reader: ReaderView::ContentLength {
                length,
                remaining: (remaining - data.len()) as nat,
            },
            buffer: rest,
            result: Ok(
                Some(
                    EventView::Data(DataView { data, chunk_start: false, chunk_end: false }),
                ),
            ),
        }),
        readers::reading(ReaderView::ContentLength { length, remaining: 0 }, rest) == (Reading {
            reader: ReaderView::ContentLength { length, remaining: 0 },
            buffer: rest,
            result: Ok(Some(EventView::EndOfMessage(Seq::empty()))),
        }),
        readers::reading(ReaderView::ContentLength { length, remaining }, Seq::empty()).result
            == Ok::<Option<EventView>, ErrorView>(None),
{
    let whole = data + rest;
    assert(whole.take(data.len() as int) =~= data);
    assert(whole.skip(data.len() as int) =~= rest);
    if rest.len() == 0 {
        assert(whole =~= data);
    }
}

/// In the middle of a chunk the data that comes first belongs to it, up to its end; the piece says
/// whether it ends the chunk. Two bytes after the chunk are passed over, and so are others that are
/// still to be passed over.
pub proof fn law_inside_chunks(left: nat, data: Seq<u8>, rest: Seq<u8>, gap: Seq<u8>)
    requires
        0 < data.len() <= left,
        data.len() == left || rest.len() == 0,
    ensures
        readers::reading(
            ReaderView::Chunked {
                bytes_in_chunk: left,
                bytes_to_discard: gap.len(),
                reading_trailer: false,
            },
            gap + (data + rest),
        ) == (Reading {
            reader: ReaderView::Chunked {
                bytes_in_chunk: (left - data.len()) as nat,
                bytes_to_discard: if data.len() == left {
                    2
                } else {
                    0
                },
                reading_trailer: false,
            },
            buffer: rest,
            result: Ok(
                Some(
                    EventView::Data(
                        DataView { data, chunk_start: false, chunk_end: data.len() == left },
                    ),
                ),
            ),
        }),
{
    let whole = data + rest;
    assert((gap + whole).skip(gap.len() as int) =~= whole);
    assert(whole.take(data.len() as int) =~= data);
    assert(whole.skip(data.len() as int) =~= rest);
    if rest.len() == 0 {
        assert(whole =~= data);
    }
}

/// The line before a chunk gives its size in hexadecimal digits, at most twenty of them; spaces,
/// tabs and extensions behind them are ignored.
pub proof fn law_chunk_sizes(digits: Seq<u8>, more: Seq<u8>)
    requires
        1 <= digits.len() <= 20,
        forall|i: int| 0 <= i < digits.len() ==> bytes::is_hex_digit(#[trigger] digits[i]),
        ({
            ||| forall|i: int| 0 <= i < more.len() ==> #[trigger] more[i] == SP || more[i] == HTAB
            ||| {
                &&& more.len() > 0
                &&& more[0] == SEMICOLON
                &&& valid_utf8(more.skip(1))
                &&& forall|i: int| 0 <= i < more.len() ==> #[trigger] more[i] != LF
            }
        }),
    ensures
        abnf::chunk_header(digits + more + seq![CR, LF]) == Some(digits),
{
    let n = digits.len() as int;
    let line = digits + more + seq![CR, LF];
    let tail = more + seq![CR, LF];
    assert(line =~= digits + tail);
    assert forall|i: int| 0 <= i < n implies abnf::in_class(
        Class::HexDigit,
        #[trigger] line[i],
    ) by {
        assert(line[i] == digits[i]);
    }
    assert(!abnf::in_class(Class::HexDigit, line[n])) by {
        assert(line[n] == tail[0]);
        if more.len() > 0 {
            assert(tail[0] == more[0]);
        }
    }
    abnf::lemma_run_is(line, Class::HexDigit, n as nat);
    assert(line.skip(n) =~= tail);
    assert(line.take(n) =~= digits);
    let m = more.len() as int;
    if m > 0 && more[0] == SEMICOLON {
        assert(tail[0] == SEMICOLON);
        assert forall|i: int| 0 <= i < m + 1 implies abnf::in_class(
            Class::NotLineFeed,
            #[trigger] tail[i],
        ) by {
            if i < m {
                assert(tail[i] == more[i]);
            }
        }
        abnf::lemma_run_is(tail, Class::NotLineFeed, (m + 1) as nat);
        assert(tail.subrange(1, m) =~= more.skip(1));
    } else {
        assert forall|i: int| 0 <= i < m implies bytes::is_ows(#[trigger] tail[i]) by {
            assert(tail[i] == more[i]);
        }
        bytes::lemma_ows_len_is(tail, m as nat);
        if m > 0 {
            assert(tail[0] == more[0]);
        }
    }
    assert(abnf::starts_with_chunk_tail(tail));
    assert(abnf::chunk_header_at(line) == Some(digits));
}

/// A chunk: the line with its size, and then its data, as much as has come; the first piece says
/// that the chunk starts. After a size of zero the message ends with the fields that follow. A size
/// that no machine integer holds is an error.
pub proof fn law_chunks(digits: Seq<u8>, more: Seq<u8>, data: Seq<u8>, rest: Seq<u8>)
    requires
        1 <= digits.len() <= 20,
        forall|i: int| 0 <= i < digits.len() ==> bytes::is_hex_digit(#[trigger] digits[i]),
        ({
            ||| forall|i: int| 0 <= i < more.len() ==> #[trigger] more[i] == SP || more[i] == HTAB
            ||| {
                &&& more.len() > 0
                &&& more[0] == SEMICOLON
                &&& valid_utf8(more.skip(1))
                &&& forall|i: int| 0 <= i < more.len() ==> #[trigger] more[i] != LF
            }
        }),
    ensures
        ({
            let size = bytes::digits_value(digits, 16);
            let line = digits + more + seq![CR, LF];
            let start = ReaderView::Chunked {
                bytes_in_chunk: 0,
                bytes_to_discard: 0,
                reading_trailer: false,
            };
            let trailer = ReaderView::Chunked {
                bytes_in_chunk: 0,
                bytes_to_discard: 0,
                reading_trailer: true,
            };
            let reading = readers::reading(start, line + (data + rest));
            &&& size > usize::MAX ==> reading.result is Err
            &&& size == 0 ==> reading == readers::reading(trailer, data + rest)
            &&& data.len() == 0 && rest.len() == 0 && 0 < size <= usize::MAX ==> reading == (
            Reading {
                reader: ReaderView::Chunked {
                    bytes_in_chunk: size,
                    bytes_to_discard: 0,
                    reading_trailer: false,
                },
                buffer: Seq::empty(),
                result: Ok(None),
            })
            &&& 0 < data.len() <= size <= usize::MAX && (data.len() == size || rest.len() == 0)
                ==> reading == (Reading {
                reader: ReaderView::Chunked {
                    bytes_in_chunk: (size - data.len()) as nat,
                    bytes_to_discard: if data.len() == size {
                        2
                    } else {
                        0
                    },
                    reading_trailer: false,
                },
                buffer: rest,
                result: Ok(
                    Some(
                        EventView::Data(
                            DataView { data, chunk_start: true, chunk_end: data.len() == size },
                        ),
                    ),
                ),
            })
        }),
{
    let line = digits + more + seq![CR, LF];
    let whole = data + rest;
    let buffer = line + whole;
    let n = line.len() as int;
    law_chunk_sizes(digits, more);
    assert(receivebuffer::crlf_at(buffer, n - 2)) by {
        assert(buffer[n - 2] == CR && buffer[n - 1] == LF);
    }
    assert forall|i: int| 0 <= i < n - 2 implies !#[trigger] receivebuffer::crlf_at(buffer, i) by {
        assert(buffer[i + 1] == line[i + 1]);
        if i + 1 < digits.len() {
            assert(line[i + 1] == digits[i + 1]);
            assert(bytes::is_hex_digit(digits[i + 1]));
        } else if i + 1 < digits.len() + more.len() {
            assert(line[i + 1] == more[i + 1 - digits.len()]);
        } else {
            assert(line[i + 1] == CR);
        }
    }
    receivebuffer::lemma_line_len_is(buffer, n - 2);
    assert(buffer.take(n) =~= line);
    assert(buffer.skip(n) =~= whole);
    assert(buffer.skip(0) =~= buffer);
    assert(whole.take(data.len() as int) =~= data);
    assert(whole.skip(data.len() as int) =~= rest);
    if rest.len() == 0 {
        assert(whole =~= data);
        if data.len() == 0 {
            assert(whole =~= Seq::<u8>::empty());
        }
    }
}

/// Where less has come than is to be passed over, all of it is, and more is waited for.
pub proof fn law_gaps(left: nat, gap: nat, data: Seq<u8>)
    requires
        data.len() < gap,
    ensures
        readers::reading(
            ReaderView::Chunked {
                bytes_in_chunk: left,
                bytes_to_discard: gap,
                reading_trailer: false,
            },
            data,
        ) == (Reading {
            reader: ReaderView::Chunked {
                bytes_in_chunk: left,
                bytes_to_discard: (gap - data.len()) as nat,
                reading_trailer: false,
            },
            buffer: Seq::empty(),
            result: Ok(None),
        }),
{
}

/// A body that lasts until the connection is closed is all that comes.
pub proof fn law_open_bodies(data: Seq<u8>)
    ensures
        match readers::reading(ReaderView::Http10, data).result {
            Ok(Some(EventView::Data(piece))) => {
                &&& piece.data.len() > 0
                &&& piece.data + readers::reading(ReaderView::Http10, data).buffer == data
                &&& !piece.chunk_start && !piece.chunk_end
            },
            Ok(None) => data.len() == 0,
            _ => false,
        },
        readers::reading(ReaderView::Http10, data).reader == ReaderView::Http10,
{
    if data.len() > 999999999 {
        assert(data.take(999999999) + data.skip(999999999) =~= data);
    } else if data.len() > 0 {
        assert(data + data.skip(data.len() as int) =~= data);
    }
}

proof fn lemma_normalize_code(pairs: Seq<(Seq<u8>, Seq<u8>)>, parsed: bool)
    ensures
        headers::normalize(pairs, parsed) matches Err(e) ==> (e matches ErrorView::Local {
            code,
            ..
        } && (code == 400 || code == 501)),
    decreases pairs.len(),
{
    if pairs.len() > 0 {
        lemma_normalize_code(pairs.drop_last(), parsed);
    }
}

proof fn lemma_decoded_code(lines: Seq<Seq<u8>>)
    ensures
        readers::unfolded(lines) matches Err(e) ==> (e matches ErrorView::Local { code, .. } && code
            == 400),
        readers::fields_of(lines) matches Err(e) ==> (e matches ErrorView::Local { code, .. }
            && code == 400),
    decreases lines.len(),
{
    if lines.len() > 0 {
        lemma_decoded_code(lines.drop_last());
    }
}

proof fn lemma_parsed_code(lines: Seq<Seq<u8>>)
    ensures
        readers::parsed_fields(lines) matches Err(e) ==> (e matches ErrorView::Local { code, .. }
            && (code == 400 || code == 501)),
{
    lemma_decoded_code(lines);
    if let Ok(out) = readers::unfolded(lines) {
        lemma_decoded_code(out);
        if let Ok(pairs) = readers::fields_of(out) {
            lemma_normalize_code(pairs, true);
        }
    }
}

/// What is wrong with received data has status 400, or 501 for a transfer coding.
pub proof fn law_what_cannot_be_read(reader: ReaderView, buffer: Seq<u8>)
    ensures
        readers::reading(reader, buffer).result matches Err(e) ==> (e matches ErrorView::Local {
            code,
            ..
        } && (code == 400 || code == 501)),
{
    match reader {
        ReaderView::Chunked { bytes_to_discard, reading_trailer, .. } => {
            let start = buffer.skip(bytes_to_discard as int);
            let rest = if reading_trailer {
                buffer
            } else if let Some(n) = receivebuffer::line_len(start) {
                start.skip(n)
            } else {
                start
            };
            if let Some((lines, _)) = receivebuffer::lines_at(rest) {
                lemma_parsed_code(lines);
            }
        },
        _ => {
            if let Some((lines, _)) = receivebuffer::lines_at(buffer) {
                lemma_parsed_code(lines.skip(1));
            }
        },
    }
}

/// After the last message nothing may come.
pub proof fn law_nothing_after_the_end(data: Seq<u8>)
    ensures
        readers::reading(ReaderView::Closed, data).result is Err <==> data.len() > 0,
        readers::reading(ReaderView::Closed, data).buffer == data,
{
}

} // verus!
