//! How received data is cut: into lines, blocks of lines, and pieces of a given size.
use vstd::prelude::*;

use crate::bytes;
use crate::bytes::{CR, LF};
use crate::events::EventView;
use crate::readers;
use crate::readers::ReaderView;
use crate::receivebuffer;
use crate::roundtrip;
use crate::util::ErrorView;

verus! {

/// Lines with a line feed after each.
pub open spec fn with_line_feeds(lines: Seq<Seq<u8>>) -> Seq<u8>
    decreases lines.len(),
{
    if lines.len() == 0 {
        Seq::empty()
    } else {
        lines[0].push(LF) + with_line_feeds(lines.drop_first())
    }
}

proof fn lemma_block(raws: Seq<Seq<u8>>, blank: Seq<u8>, rest: Seq<u8>)
    requires
        raws.len() > 0,
        forall|k: int|
            0 <= k < raws.len() ==> (#[trigger] raws[k]).len() > 0 && !raws[k].contains(LF)
                && raws[k] != seq![CR],
        blank == seq![LF] || blank == seq![CR, LF],
    ensures
        receivebuffer::block_len(with_line_feeds(raws) + blank + rest) == Some(
            with_line_feeds(raws).len() as int + blank.len(),
        ),
        bytes::split(with_line_feeds(raws) + blank, LF) == raws + seq![
            blank.drop_last(),
            Seq::<u8>::empty(),
        ],
    decreases raws.len(),
{
    let s = with_line_feeds(raws) + blank + rest;
    let others = raws.drop_first();
    let tail = with_line_feeds(others) + blank + rest;
    let x = raws[0];
    let t = seq![LF] + tail;
    assert(x.len() > 0 && !x.contains(LF));
    assert(s =~= x + t);
    roundtrip::lemma_block_len_after(x, t);
    assert(t.drop_first() =~= tail);
    let whole = with_line_feeds(raws) + blank;
    let part = with_line_feeds(others) + blank;
    assert(whole =~= x.push(LF) + part);
    bytes::lemma_split_join(x, LF, part);
    bytes::lemma_split_whole(x, LF);
    if others.len() == 0 {
        let end = blank.drop_last();
        assert(tail =~= blank + rest);
        assert(t[1] == blank[0]);
        if blank.len() == 2 {
            assert(t[2] == blank[1]);
        }
        assert(receivebuffer::blank_len(t) == blank.len() + 1);
        assert(part =~= end.push(LF) + Seq::<u8>::empty());
        bytes::lemma_split_join(end, LF, Seq::empty());
        assert forall|i: int| 0 <= i < end.len() implies end[i] != LF by {}
        bytes::lemma_split_whole(end, LF);
        bytes::lemma_split_whole(Seq::empty(), LF);
        assert(bytes::split(whole, LF) =~= raws + seq![end, Seq::<u8>::empty()]);
    } else {
        let y = others[0];
        assert(y == raws[1]);
        assert forall|k: int| 0 <= k < others.len() implies (#[trigger] others[k]).len() > 0
            && !others[k].contains(LF) && others[k] != seq![CR] by {
            assert(others[k] == raws[k + 1]);
        }
        lemma_block(others, blank, rest);
        assert(tail[0] == y[0]);
        assert(t[1] == y[0]);
        assert(y[0] != LF);
        if y.len() > 1 {
            assert(t[2] == y[1]);
            assert(y[1] != LF);
        } else if y[0] == CR {
            assert(y =~= seq![CR]);
        }
        assert(receivebuffer::blank_len(t) == 0);
        assert(bytes::split(whole, LF) =~= raws + seq![blank.drop_last(), Seq::<u8>::empty()]);
    }
}

/// A block of lines ends with a blank line, and what follows it stays. A line ends with a line feed,
/// with or without a carriage return before it, which is no part of the line. `raws` are the lines
/// up to their line feeds.
pub proof fn law_blocks(lines: Seq<Seq<u8>>, raws: Seq<Seq<u8>>, blank: Seq<u8>, rest: Seq<u8>)
    requires
        lines.len() == raws.len(),
        forall|k: int|
            0 <= k < lines.len() ==> (#[trigger] lines[k]).len() > 0 && !lines[k].contains(LF),
        forall|k: int|
            0 <= k < raws.len() ==> #[trigger] raws[k] == lines[k].push(CR) || (raws[k] == lines[k]
                && lines[k].last() != CR),
        blank == seq![LF] || blank == seq![CR, LF],
    ensures
        receivebuffer::lines_at(with_line_feeds(raws) + blank + rest) == Some(
            (lines, with_line_feeds(raws).len() as int + blank.len()),
        ),
{
    let s = with_line_feeds(raws) + blank + rest;
    if raws.len() == 0 {
        assert(s =~= blank + rest);
        assert(lines =~= Seq::<Seq<u8>>::empty());
        assert(s[0] == blank[0]);
        if blank.len() == 2 {
            assert(s[1] == blank[1]);
        }
    } else {
        assert forall|k: int| 0 <= k < raws.len() implies (#[trigger] raws[k]).len() > 0
            && !raws[k].contains(LF) && raws[k] != seq![CR] by {
            assert(lines[k].len() > 0 && !lines[k].contains(LF));
            assert forall|i: int| 0 <= i < raws[k].len() implies raws[k][i] != LF by {
                if i < lines[k].len() {
                    assert(lines[k][i] != LF);
                }
            }
            if raws[k] == seq![CR] {
                assert(raws[k].len() == 1);
                assert(raws[k].last() == CR);
            }
        }
        lemma_block(raws, blank, rest);
        let x = raws[0];
        assert(x.len() > 0 && !x.contains(LF) && x != seq![CR]);
        assert(s[0] == x[0]);
        assert(x[0] != LF);
        if x.len() > 1 {
            assert(s[1] == x[1]);
            assert(x[1] != LF);
        } else if x[0] == CR {
            assert(x =~= seq![CR]);
        }
        let n = with_line_feeds(raws).len() + blank.len();
        assert(s.take(n as int) =~= with_line_feeds(raws) + blank);
        let pieces = bytes::split(s.take(n as int), LF);
        assert forall|k: int| 0 <= k < raws.len() implies receivebuffer::chop_cr(
            #[trigger] pieces[k],
        ) == lines[k] by {
            assert(pieces[k] == raws[k]);
            assert(lines[k].push(CR).drop_last() =~= lines[k]);
        }
        assert(receivebuffer::block_lines(s.take(n as int)) =~= lines);
    }
}

proof fn lemma_blank(s: Seq<u8>)
    ensures
        receivebuffer::block_len(s) is Some <==> exists|i: int|
            0 <= i < s.len() && #[trigger] s[i] == LF && receivebuffer::blank_len(s.skip(i)) > 0,
    decreases s.len(),
{
    assert(s.skip(0) =~= s);
    if s.len() > 0 {
        let t = s.drop_first();
        lemma_blank(t);
        if receivebuffer::blank_len(s) > 0 {
            assert(s[0] == LF);
        } else {
            if receivebuffer::block_len(t) is Some {
                let i = choose|i: int|
                    0 <= i < t.len() && #[trigger] t[i] == LF && receivebuffer::blank_len(
                        t.skip(i),
                    ) > 0;
                assert(t.skip(i) =~= s.skip(i + 1));
                assert(s[i + 1] == LF);
            }
            if exists|i: int|
                0 <= i < s.len() && #[trigger] s[i] == LF && receivebuffer::blank_len(s.skip(i))
                    > 0 {
                let i = choose|i: int|
                    0 <= i < s.len() && #[trigger] s[i] == LF && receivebuffer::blank_len(
                        s.skip(i),
                    ) > 0;
                assert(i > 0);
                assert(t.skip(i - 1) =~= s.skip(i));
                assert(t[i - 1] == LF);
            }
        }
    }
}

/// There is a block of lines exactly if a blank line has come: at the start, or after a line feed.
/// Without one a head is waited for, unless the data starts with a control character or a space.
pub proof fn law_when_a_block_has_come(s: Seq<u8>)
    ensures
        receivebuffer::lines_at(s) is Some <==> {
            ||| s.len() >= 1 && s[0] == LF
            ||| s.len() >= 2 && s[0] == CR && s[1] == LF
            ||| exists|i: int|
                0 <= i < s.len() && #[trigger] s[i] == LF && (i + 1 < s.len() && s[i + 1] == LF || i
                    + 2 < s.len() && s[i + 1] == CR && s[i + 2] == LF)
        },
        receivebuffer::lines_at(s) is None ==> {
            let refused = s.len() > 0 && s[0] <= 0x20;
            &&& readers::reading(ReaderView::IdleClient, s).result is Err <==> refused
            &&& readers::reading(ReaderView::SendResponseServer, s).result is Err <==> refused
            &&& !refused ==> readers::reading(ReaderView::IdleClient, s).result == Ok::<
                Option<EventView>,
                ErrorView,
            >(None)
            &&& !refused ==> readers::reading(ReaderView::SendResponseServer, s).result == Ok::<
                Option<EventView>,
                ErrorView,
            >(None)
        },
{
    lemma_blank(s);
    assert forall|i: int| 0 <= i < s.len() && #[trigger] s[i] == LF implies (
    receivebuffer::blank_len(s.skip(i)) > 0) == (i + 1 < s.len() && s[i + 1] == LF || i + 2
        < s.len() && s[i + 1] == CR && s[i + 2] == LF) by {
        let t = s.skip(i);
        assert(t[0] == s[i]);
        if i + 1 < s.len() {
            assert(t[1] == s[i + 1]);
        }
        if i + 2 < s.len() {
            assert(t[2] == s[i + 2]);
        }
    }
    if receivebuffer::block_len(s) is Some {
        let i = choose|i: int|
            0 <= i < s.len() && #[trigger] s[i] == LF && receivebuffer::blank_len(s.skip(i)) > 0;
        assert(s[i] == LF);
    }
}

/// The first line of a body ends with the first carriage return that a line feed follows.
pub proof fn law_first_lines(line: Seq<u8>, rest: Seq<u8>)
    requires
        forall|i: int|
            0 <= i < line.len() && #[trigger] line[i] == CR ==> i + 1 < line.len() && line[i + 1]
                != LF,
    ensures
        receivebuffer::line_len(line + seq![CR, LF] + rest) == Some(line.len() as int + 2),
        receivebuffer::line_len(line) is None,
{
    let n = line.len() as int;
    let s = line + seq![CR, LF] + rest;
    assert(s[n] == CR && s[n + 1] == LF);
    assert forall|i: int| 0 <= i < n implies !#[trigger] receivebuffer::crlf_at(s, i) by {
        assert(s[i] == line[i]);
        if line[i] == CR {
            assert(s[i + 1] == line[i + 1]);
        }
    }
    receivebuffer::lemma_line_len_is(s, n);
    receivebuffer::lemma_line_len(line);
    if let Some(k) = receivebuffer::line_len(line) {
        assert(line[k - 2] == CR);
    }
}

/// At most so many bytes are the first so many, or all if there are fewer; where that is nothing
/// there is no piece.
pub proof fn law_pieces(s: Seq<u8>, count: int)
    ensures
        match receivebuffer::at_most(s, count) {
            Some(piece) => {
                &&& 0 < piece.len() <= count
                &&& piece.len() == count || piece.len() == s.len()
                &&& piece + s.skip(piece.len() as int) == s
            },
            None => count <= 0 || s.len() == 0,
        },
{
    if let Some(piece) = receivebuffer::at_most(s, count) {
        assert(piece + s.skip(piece.len() as int) =~= s);
    }
}

} // verus!
