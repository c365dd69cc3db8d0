//! How the received bytes are cut into pieces makes no difference: the laws of reading on.
use vstd::prelude::*;

use crate::abnf;
use crate::bytes;
use crate::bytes::{CR, LF};
use crate::events::EventView;
use crate::headers::Field;
use crate::readers;
use crate::readers::{ReaderView, Reading};
use crate::receivebuffer;
use crate::util::ErrorView;

verus! {

proof fn lemma_line_len_stable(a: Seq<u8>, b: Seq<u8>)
    requires
        receivebuffer::line_len(a) is Some,
    ensures
        receivebuffer::line_len(a + b) == receivebuffer::line_len(a),
        2 <= receivebuffer::line_len(a)->0 <= a.len(),
{
    receivebuffer::lemma_line_len(a);
    let n = receivebuffer::line_len(a)->0;
    assert forall|j: int| 0 <= j < n - 2 implies !#[trigger] receivebuffer::crlf_at(a + b, j) by {
        assert(!receivebuffer::crlf_at(a, j));
    }
    assert(receivebuffer::crlf_at(a, n - 2));
    assert(receivebuffer::crlf_at(a + b, n - 2));
    receivebuffer::lemma_line_len_is(a + b, n - 2);
}

proof fn lemma_block_len_stable(a: Seq<u8>, b: Seq<u8>)
    requires
        receivebuffer::block_len(a) is Some,
    ensures
        receivebuffer::block_len(a + b) == receivebuffer::block_len(a),
        2 <= receivebuffer::block_len(a)->0 <= a.len(),
    decreases a.len(),
{
    receivebuffer::lemma_block_len(a);
    if receivebuffer::blank_len(a) == 0 {
        let t = a.drop_first();
        receivebuffer::lemma_block_len(t);
        lemma_block_len_stable(t, b);
        assert((a + b).drop_first() =~= t + b);
        assert((a + b)[0] == a[0] && (a + b)[1] == a[1] && (a + b)[2] == a[2]);
    } else {
        assert((a + b)[0] == a[0] && (a + b)[1] == a[1]);
    }
}

/// A block of lines that has come is the same whatever comes after it.
pub proof fn law_lines_are_stable(a: Seq<u8>, b: Seq<u8>)
    requires
        receivebuffer::lines_at(a) is Some,
    ensures
        receivebuffer::lines_at(a + b) == receivebuffer::lines_at(a),
        0 < (receivebuffer::lines_at(a)->0).1 <= a.len(),
{
    assert((a + b)[0] == a[0]);
    if a.len() >= 2 {
        assert((a + b)[1] == a[1]);
    }
    if !(a[0] == LF) && !(a.len() >= 2 && a[0] == CR && a[1] == LF) {
        lemma_block_len_stable(a, b);
        let n = receivebuffer::block_len(a)->0;
        assert((a + b).take(n) =~= a.take(n));
    }
}

/// A head is read the same whether what follows it is there already or not. Where it is not
/// whole, nothing is used up. Only data that starts with a control character or a space is
/// refused before it is whole, and is left out here.
pub proof fn law_head_segments(reader: ReaderView, a: Seq<u8>, b: Seq<u8>)
    requires
        reader is IdleClient || reader is SendResponseServer,
        !receivebuffer::starts_badly(a),
    ensures
        ({
            let first = readers::reading(reader, a);
            let whole = readers::reading(reader, a + b);
            if first.result == Ok::<Option<EventView>, ErrorView>(None) {
                first == (Reading { reader, buffer: a, result: Ok(None) })
            } else {
                whole == (Reading { buffer: first.buffer + b, ..first })
            }
        }),
{
    if receivebuffer::lines_at(a) is Some {
        law_lines_are_stable(a, b);
        let n = (receivebuffer::lines_at(a)->0).1;
        assert((a + b).skip(n) =~= a.skip(n) + b);
    }
}

/// How far reading on has come: more data is needed, the message is over, or it is wrong.
#[verifier::ext_equal]
pub enum Progress {
    More,
    End(Seq<Field>),
    Failed(ErrorView),
}

/// What reading on leaves: the reader, the buffer, and all the data of the body that was read.
#[verifier::ext_equal]
pub struct Drained {
    pub reader: ReaderView,
    pub buffer: Seq<u8>,
    pub data: Seq<u8>,
    pub progress: Progress,
}

/// Reads a body on until more data is needed, or until it ends.
pub open spec fn drained(reader: ReaderView, buffer: Seq<u8>) -> Drained
    decreases buffer.len(),
{
    let reading = readers::reading(reader, buffer);
    let stopped = |progress: Progress|
        Drained { reader: reading.reader, buffer: reading.buffer, data: Seq::empty(), progress };
    match reading.result {
        Ok(Some(EventView::Data(data))) => if reading.buffer.len() < buffer.len() {
            let rest = drained(reading.reader, reading.buffer);
            Drained { data: data.data + rest.data, ..rest }
        } else {
            stopped(Progress::More)
        },
        Ok(Some(EventView::EndOfMessage(fields))) => stopped(Progress::End(fields)),
        Ok(_) => stopped(Progress::More),
        Err(e) => stopped(Progress::Failed(e)),
    }
}

/// What comes of reading on when more data has come.
pub open spec fn resumed(first: Drained, more: Seq<u8>) -> Drained {
    match first.progress {
        Progress::More => {
            let second = drained(first.reader, first.buffer + more);
            Drained { data: first.data + second.data, ..second }
        },
        _ => Drained { buffer: first.buffer + more, ..first },
    }
}

pub open spec fn is_body_reader(reader: ReaderView) -> bool {
    match reader {
        ReaderView::ContentLength { .. } => true,
        ReaderView::Chunked { .. } => true,
        ReaderView::Http10 => true,
        _ => false,
    }
}

/// Reading on without new data comes to nothing.
proof fn lemma_wait(reader: ReaderView, a: Seq<u8>, b: Seq<u8>)
    requires
        readers::reading(reader, a) == (Reading { reader, buffer: a, result: Ok(None) }),
    ensures
        drained(reader, a + b) == resumed(drained(reader, a), b),
{
    let second = drained(reader, a + b);
    assert(Seq::<u8>::empty() + second.data =~= second.data);
}

/// The first step is the same with more data: the rest follows from the rest.
proof fn lemma_same_step(reader: ReaderView, a: Seq<u8>, b: Seq<u8>)
    requires
        ({
            let first = readers::reading(reader, a);
            let whole = readers::reading(reader, a + b);
            &&& whole == (Reading { buffer: first.buffer + b, ..first })
            &&& match first.result {
                Ok(Some(EventView::Data(_))) => first.buffer.len() < a.len() && drained(
                    first.reader,
                    first.buffer + b,
                ) == resumed(drained(first.reader, first.buffer), b),
                Ok(Some(EventView::EndOfMessage(_))) => true,
                Err(_) => true,
                _ => false,
            }
        }),
    ensures
        drained(reader, a + b) == resumed(drained(reader, a), b),
{
    let first = readers::reading(reader, a);
    match first.result {
        Ok(Some(EventView::Data(data))) => {
            let rest = drained(first.reader, first.buffer);
            if rest.progress is More {
                let second = drained(rest.reader, rest.buffer + b);
                assert(data.data + (rest.data + second.data) =~= (data.data + rest.data)
                    + second.data);
            }
        },
        _ => {},
    }
}

/// The first step used up all data and more of the same sort can follow: the two parts make one.
proof fn lemma_joined_step(reader: ReaderView, a: Seq<u8>, b: Seq<u8>)
    requires
        a.len() > 0,
        b.len() > 0,
        ({
            let first = readers::reading(reader, a);
            let second = readers::reading(first.reader, b);
            let whole = readers::reading(reader, a + b);
            &&& first.buffer == Seq::<u8>::empty()
            &&& readers::reading(first.reader, Seq::empty()) == (Reading {
                reader: first.reader,
                buffer: Seq::empty(),
                result: Ok(None),
            })
            &&& second.buffer.len() < b.len()
            &&& first.result matches Ok(Some(EventView::Data(x))) && (second.result matches Ok(
                Some(EventView::Data(y)),
            ) && (whole.result matches Ok(Some(EventView::Data(z))) && z.data == x.data + y.data))
            &&& whole.reader == second.reader
            &&& whole.buffer == second.buffer
        }),
    ensures
        drained(reader, a + b) == resumed(drained(reader, a), b),
{
    let first = readers::reading(reader, a);
    let second = readers::reading(first.reader, b);
    let x = first.result->Ok_0->0->Data_0.data;
    let y = second.result->Ok_0->0->Data_0.data;
    let rest = drained(second.reader, second.buffer);
    assert(drained(first.reader, Seq::empty()) == (Drained {
        reader: first.reader,
        buffer: Seq::empty(),
        data: Seq::empty(),
        progress: Progress::More,
    }));
    assert(x + Seq::<u8>::empty() =~= x);
    assert(Seq::<u8>::empty() + b =~= b);
    assert((x + y) + rest.data =~= x + (y + rest.data));
}

proof fn lemma_content_length(length: nat, remaining: nat, a: Seq<u8>, b: Seq<u8>)
    requires
        remaining <= length,
    ensures
        ({
            let reader = ReaderView::ContentLength { length, remaining };
            drained(reader, a + b) == resumed(drained(reader, a), b)
        }),
{
    let reader = ReaderView::ContentLength { length, remaining };
    let first = readers::reading(reader, a);
    if remaining == 0 {
        lemma_same_step(reader, a, b);
    } else if a.len() == 0 {
        lemma_wait(reader, a, b);
    } else if remaining <= a.len() {
        assert(a.take(a.len() as int) =~= a);
        assert((a + b).take(remaining as int) =~= a.take(remaining as int));
        assert((a + b).skip(remaining as int) =~= a.skip(remaining as int) + b);
        let done = ReaderView::ContentLength { length, remaining: 0 };
        lemma_same_step(done, a.skip(remaining as int), b);
        lemma_same_step(reader, a, b);
    } else if b.len() == 0 {
        assert(a.skip(a.len() as int) =~= Seq::<u8>::empty());
        lemma_nothing_more(reader, a, b);
    } else {
        assert(a.skip(a.len() as int) =~= Seq::<u8>::empty());
        let left = (remaining - a.len()) as nat;
        if left < b.len() {
            assert((a + b).take(remaining as int) =~= a + b.take(left as int));
            assert((a + b).skip(remaining as int) =~= b.skip(left as int));
        } else {
            assert((a + b).take((a + b).len() as int) =~= a + b);
            assert((a + b).skip((a + b).len() as int) =~= b.skip(b.len() as int));
        }
        lemma_joined_step(reader, a, b);
    }
}

/// Where the first step uses up all data and then waits, no data more changes nothing.
proof fn lemma_nothing_more(reader: ReaderView, a: Seq<u8>, b: Seq<u8>)
    requires
        a.len() > 0,
        b.len() == 0,
        ({
            let first = readers::reading(reader, a);
            &&& first.buffer == Seq::<u8>::empty()
            &&& first.result matches Ok(Some(EventView::Data(_)))
            &&& readers::reading(first.reader, Seq::empty()) == (Reading {
                reader: first.reader,
                buffer: Seq::empty(),
                result: Ok(None),
            })
        }),
    ensures
        drained(reader, a + b) == resumed(drained(reader, a), b),
{
    let first = readers::reading(reader, a);
    let x = first.result->Ok_0->0->Data_0.data;
    assert(a + b =~= a);
    assert(drained(first.reader, Seq::empty()) == (Drained {
        reader: first.reader,
        buffer: Seq::empty(),
        data: Seq::empty(),
        progress: Progress::More,
    }));
    assert(x + Seq::<u8>::empty() =~= x);
    assert(Seq::<u8>::empty() + b =~= Seq::<u8>::empty());
}

proof fn lemma_http10_drained(s: Seq<u8>)
    ensures
        drained(ReaderView::Http10, s) == (Drained {
            reader: ReaderView::Http10,
            buffer: Seq::empty(),
            data: s,
            progress: Progress::More,
        }),
    decreases s.len(),
{
    if s.len() == 0 {
        assert(s =~= Seq::<u8>::empty());
    } else {
        let n = if 999999999 < s.len() {
            999999999int
        } else {
            s.len() as int
        };
        assert(s.take(s.len() as int) =~= s);
        lemma_http10_drained(s.skip(n));
        assert(s.take(n) + s.skip(n) =~= s);
    }
}

/// Data is read at the cost of the buffer.
proof fn lemma_data_shrinks(reader: ReaderView, s: Seq<u8>)
    requires
        is_body_reader(reader),
    ensures
        readers::reading(reader, s).result matches Ok(Some(EventView::Data(_)))
            ==> readers::reading(reader, s).buffer.len() < s.len(),
{
    if let ReaderView::Chunked { bytes_in_chunk, bytes_to_discard, reading_trailer } = reader {
        if !reading_trailer && bytes_to_discard <= s.len() && bytes_in_chunk == 0 {
            receivebuffer::lemma_line_len(s.skip(bytes_to_discard as int));
        }
    }
}

/// Two readers that read the same go on the same.
proof fn lemma_same_reading(r: ReaderView, s: Seq<u8>, q: ReaderView, t: Seq<u8>)
    requires
        is_body_reader(r),
        is_body_reader(q),
        ({
            let a = readers::reading(r, s);
            let b = readers::reading(q, t);
            &&& a.reader == b.reader
            &&& a.buffer == b.buffer
            &&& a.result == b.result || (a.result matches Ok(Some(EventView::Data(x))) && (
            b.result matches Ok(Some(EventView::Data(y))) && x.data == y.data))
        }),
    ensures
        drained(r, s) == drained(q, t),
{
    lemma_data_shrinks(r, s);
    lemma_data_shrinks(q, t);
}

/// Where the first step only waits, going on with more data is going on from there.
proof fn lemma_wait_elsewhere(reader: ReaderView, a: Seq<u8>, b: Seq<u8>)
    requires
        ({
            let first = readers::reading(reader, a);
            &&& first.result == Ok::<Option<EventView>, ErrorView>(None)
            &&& drained(reader, a + b) == drained(first.reader, first.buffer + b)
        }),
    ensures
        drained(reader, a + b) == resumed(drained(reader, a), b),
{
    let second = drained(reader, a + b);
    assert(Seq::<u8>::empty() + second.data =~= second.data);
}

spec fn chunked(bytes_in_chunk: nat, bytes_to_discard: nat, reading_trailer: bool) -> ReaderView {
    ReaderView::Chunked { bytes_in_chunk, bytes_to_discard, reading_trailer }
}

/// The data of a chunk: `rest` is what is left of `a` where the data starts.
#[verifier::rlimit(40)]
#[verifier::spinoff_prover]
proof fn lemma_chunk_data(
    reader: ReaderView,
    left: nat,
    start: bool,
    rest: Seq<u8>,
    a: Seq<u8>,
    b: Seq<u8>,
)
    requires
        is_body_reader(reader),
        left > 0,
        rest.len() <= a.len(),
        readers::reading(reader, a) == readers::read_chunk_data(left, start, rest),
        readers::reading(reader, a + b) == readers::read_chunk_data(left, start, rest + b),
        rest.len() >= left ==> drained(chunked(0, 2, false), rest.skip(left as int) + b) == resumed(
            drained(chunked(0, 2, false), rest.skip(left as int)),
            b,
        ),
    ensures
        drained(reader, a + b) == resumed(drained(reader, a), b),
{
    let within = chunked(left, 0, false);
    if rest.len() == 0 {
        assert(rest + b =~= b);
        assert(rest =~= Seq::<u8>::empty());
        assert(b.skip(0) =~= b);
        lemma_same_reading(reader, a + b, within, b);
        lemma_wait_elsewhere(reader, a, b);
    } else if rest.len() >= left {
        assert((rest + b).take(left as int) =~= rest.take(left as int));
        assert(rest.take(rest.len() as int) =~= rest);
        assert((rest + b).take((rest + b).len() as int) =~= rest + b);
        assert((rest + b).skip(left as int) =~= rest.skip(left as int) + b);
        lemma_same_step(reader, a, b);
    } else {
        let after = chunked((left - rest.len()) as nat, 0, false);
        let more = (left - rest.len()) as int;
        assert(rest.skip(rest.len() as int) =~= Seq::<u8>::empty());
        assert(readers::reading(reader, a).reader == after);
        assert(Seq::<u8>::empty().skip(0) =~= Seq::<u8>::empty());
        assert(readers::reading(after, Seq::empty()) == (Reading {
            reader: after,
            buffer: Seq::empty(),
            result: Ok(None),
        }));
        if b.len() == 0 {
            lemma_nothing_more(reader, a, b);
        } else {
            assert(b.skip(0) =~= b);
            if more < b.len() {
                assert((rest + b).take(left as int) =~= rest + b.take(more));
                assert((rest + b).skip(left as int) =~= b.skip(more));
            } else {
                assert((rest + b).take((rest + b).len() as int) =~= rest + b);
                assert((rest + b).skip((rest + b).len() as int) =~= b.skip(b.len() as int));
                assert(b.take(b.len() as int) =~= b);
            }
            lemma_joined_step(reader, a, b);
        }
    }
}

proof fn lemma_chunk_start(discard: nat, a: Seq<u8>, b: Seq<u8>)
    requires
        discard <= a.len(),
    ensures
        drained(chunked(0, discard, false), a + b) == resumed(
            drained(chunked(0, discard, false), a),
            b,
        ),
    decreases a.len(), 0int,
{
    let reader = chunked(0, discard, false);
    let s = a.skip(discard as int);
    assert((a + b).skip(discard as int) =~= s + b);
    match receivebuffer::line_len(s) {
        None => {
            let ready = chunked(0, 0, false);
            assert((s + b).skip(0) =~= s + b);
            lemma_same_reading(reader, a + b, ready, s + b);
            lemma_wait_elsewhere(reader, a, b);
        },
        Some(n) => {
            lemma_line_len_stable(s, b);
            let line = s.take(n);
            let rest = s.skip(n);
            assert((s + b).take(n) =~= line);
            assert((s + b).skip(n) =~= rest + b);
            match abnf::chunk_header(line) {
                None => {
                    lemma_same_step(reader, a, b);
                },
                Some(size) => {
                    let value = bytes::digits_value(size, 16);
                    if value > usize::MAX {
                        lemma_same_step(reader, a, b);
                    } else if value == 0 {
                        match receivebuffer::lines_at(rest) {
                            Some((_, m)) => {
                                law_lines_are_stable(rest, b);
                                assert((rest + b).skip(m) =~= rest.skip(m) + b);
                                lemma_same_step(reader, a, b);
                            },
                            None => {
                                lemma_same_reading(reader, a + b, chunked(0, 0, true), rest + b);
                                lemma_wait_elsewhere(reader, a, b);
                            },
                        }
                    } else {
                        if rest.len() >= value {
                            lemma_chunked(0, 2, false, rest.skip(value as int), b);
                        }
                        lemma_chunk_data(reader, value, true, rest, a, b);
                    }
                },
            }
        },
    }
}

proof fn lemma_chunked(
    bytes_in_chunk: nat,
    bytes_to_discard: nat,
    reading_trailer: bool,
    a: Seq<u8>,
    b: Seq<u8>,
)
    ensures
        drained(chunked(bytes_in_chunk, bytes_to_discard, reading_trailer), a + b) == resumed(
            drained(chunked(bytes_in_chunk, bytes_to_discard, reading_trailer), a),
            b,
        ),
    decreases a.len(), 1int,
{
    let reader = chunked(bytes_in_chunk, bytes_to_discard, reading_trailer);
    let d = bytes_to_discard as int;
    if reading_trailer {
        match receivebuffer::lines_at(a) {
            Some((_, n)) => {
                law_lines_are_stable(a, b);
                assert((a + b).skip(n) =~= a.skip(n) + b);
                lemma_same_step(reader, a, b);
            },
            None => {
                lemma_wait(reader, a, b);
            },
        }
    } else if d > a.len() {
        let fewer = chunked(bytes_in_chunk, (d - a.len()) as nat, false);
        assert(Seq::<u8>::empty() + b =~= b);
        if d <= (a + b).len() {
            assert((a + b).skip(d) =~= b.skip(d - a.len()));
        }
        lemma_same_reading(reader, a + b, fewer, b);
        lemma_wait_elsewhere(reader, a, b);
    } else if bytes_in_chunk == 0 {
        lemma_chunk_start(bytes_to_discard, a, b);
    } else {
        let rest = a.skip(d);
        assert((a + b).skip(d) =~= rest + b);
        if rest.len() >= bytes_in_chunk {
            lemma_chunked(0, 2, false, rest.skip(bytes_in_chunk as int), b);
        }
        lemma_chunk_data(reader, bytes_in_chunk, false, rest, a, b);
    }
}

/// A body can be received in pieces: reading a first part and then going on with a second gives
/// the same data, the same end or error, and the same reader and buffer, as reading both at once.
pub proof fn law_body_segments(reader: ReaderView, a: Seq<u8>, b: Seq<u8>)
    requires
        is_body_reader(reader),
        reader matches ReaderView::ContentLength { length, remaining } ==> remaining <= length,
    ensures
        drained(reader, a + b) == resumed(drained(reader, a), b),
{
    match reader {
        ReaderView::ContentLength { length, remaining } => {
            lemma_content_length(length, remaining, a, b);
        },
        ReaderView::Chunked { bytes_in_chunk, bytes_to_discard, reading_trailer } => {
            lemma_chunked(bytes_in_chunk, bytes_to_discard, reading_trailer, a, b);
        },
        _ => {
            lemma_http10_drained(a);
            lemma_http10_drained(b);
            lemma_http10_drained(a + b);
            assert(Seq::<u8>::empty() + b =~= b);
        },
    }
}

} // verus!
