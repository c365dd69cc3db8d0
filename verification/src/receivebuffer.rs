//! The buffer of received bytes, and what is cut from its front: a number of bytes, a line,
//! or a block of lines that a blank line ends.
use vstd::prelude::*;

use crate::bytes;
use crate::bytes::{split_at_byte, to_vec, CR, LF};

verus! {

/// Whether a line end stands at position `i` of `s`.
pub open spec fn crlf_at(s: Seq<u8>, i: int) -> bool {
    0 <= i && i + 1 < s.len() && s[i] == CR && s[i + 1] == LF
}

/// The length of the first line of `s`, its line end counted; `None` where no line ends.
pub open spec fn line_len(s: Seq<u8>) -> Option<int>
    decreases s.len(),
{
    if s.len() == 0 {
        None
    } else if crlf_at(s, 0) {
        Some(2)
    } else {
        match line_len(s.drop_first()) {
            Some(n) => Some(n + 1),
            None => None,
        }
    }
}

pub proof fn lemma_line_len(s: Seq<u8>)
    ensures
        match line_len(s) {
            Some(n) => 2 <= n <= s.len() && crlf_at(s, n - 2) && forall|i: int|
                i < n - 2 ==> !#[trigger] crlf_at(s, i),
            None => forall|i: int| !#[trigger] crlf_at(s, i),
        },
    decreases s.len(),
{
    if s.len() > 0 && !crlf_at(s, 0) {
        let t = s.drop_first();
        lemma_line_len(t);
        assert forall|i: int| 0 < i implies #[trigger] crlf_at(s, i) == crlf_at(t, i - 1) by {}
        if line_len(s) is Some {
            assert(crlf_at(t, line_len(t)->0 - 2));
        }
    }
}

/// The first line end gives the length of the first line.
pub proof fn lemma_line_len_is(s: Seq<u8>, i: int)
    requires
        crlf_at(s, i),
        forall|j: int| 0 <= j < i ==> !#[trigger] crlf_at(s, j),
    ensures
        line_len(s) == Some(i + 2),
{
    lemma_line_len(s);
}

/// The length of the blank line that starts at the start of `s`: a line feed and, after an
/// optional carriage return, another.
pub open spec fn blank_len(s: Seq<u8>) -> int {
    if s.len() >= 2 && s[0] == LF && s[1] == LF {
        2
    } else if s.len() >= 3 && s[0] == LF && s[1] == CR && s[2] == LF {
        3
    } else {
        0
    }
}

/// The length of `s` up to the end of its first blank line; `None` where it has none.
pub open spec fn block_len(s: Seq<u8>) -> Option<int>
    decreases s.len(),
{
    if s.len() == 0 {
        None
    } else if blank_len(s) > 0 {
        Some(blank_len(s))
    } else {
        match block_len(s.drop_first()) {
            Some(n) => Some(n + 1),
            None => None,
        }
    }
}

/// Searching further on for the first blank line gives the same as searching from the start,
/// where none starts before.
pub proof fn lemma_block_len_from(s: Seq<u8>, i: int)
    requires
        0 <= i <= s.len(),
        forall|j: int| 0 <= j < i ==> blank_len(#[trigger] s.skip(j)) == 0,
    ensures
        block_len(s) == (match block_len(s.skip(i)) {
            Some(n) => Some(n + i),
            None => None,
        }),
    decreases i,
{
    if i == 0 {
        assert(s.skip(0) =~= s);
    } else {
        assert(s.skip(0) =~= s);
        let t = s.drop_first();
        assert forall|j: int| 0 <= j < i - 1 implies blank_len(#[trigger] t.skip(j)) == 0 by {
            assert(t.skip(j) =~= s.skip(j + 1));
        }
        lemma_block_len_from(t, i - 1);
        assert(t.skip(i - 1) =~= s.skip(i));
        assert(blank_len(s.skip(0)) == 0);
    }
}

pub proof fn lemma_block_len(s: Seq<u8>)
    ensures
        match block_len(s) {
            Some(n) => 2 <= n <= s.len() && s[n - 1] == LF,
            None => true,
        },
    decreases s.len(),
{
    if s.len() > 0 && blank_len(s) == 0 {
        lemma_block_len(s.drop_first());
    }
}

/// `s` without a carriage return at its end.
pub open spec fn chop_cr(s: Seq<u8>) -> Seq<u8> {
    if s.len() > 0 && s.last() == CR {
        s.drop_last()
    } else {
        s
    }
}

/// The lines of a block, without their line ends and without the blank line that ends it.
pub open spec fn block_lines(block: Seq<u8>) -> Seq<Seq<u8>> {
    bytes::split(block, LF).map_values(|line: Seq<u8>| chop_cr(line)).drop_last().drop_last()
}

/// The block of lines at the start of `s` and its length in bytes. A blank line at the very
/// start is an empty block; `None` where no blank line has come yet.
pub open spec fn lines_at(s: Seq<u8>) -> Option<(Seq<Seq<u8>>, int)> {
    if s.len() >= 1 && s[0] == LF {
        Some((Seq::empty(), 1))
    } else if s.len() >= 2 && s[0] == CR && s[1] == LF {
        Some((Seq::empty(), 2))
    } else {
        match block_len(s) {
            Some(n) => Some((block_lines(s.take(n)), n)),
            None => None,
        }
    }
}

/// The bytes that were received and not yet used.
pub struct ReceiveBuffer {
    data: Vec<u8>,
    next_line_search: usize,
    multiple_lines_search: usize,
}

impl View for ReceiveBuffer {
    type V = Seq<u8>;

    closed spec fn view(&self) -> Seq<u8> {
        self.data@
    }
}

fn cut_front(data: Vec<u8>, count: usize) -> (r: (Vec<u8>, Vec<u8>))
    requires
        count <= data.len(),
    ensures
        r.0@ == data@.take(count as int),
        r.1@ == data@.skip(count as int),
{
    let mut front = data;
    let back: Vec<u8> = front.split_off(count);
    assert(front@ =~= data@.take(count as int));
    assert(back@ =~= data@.skip(count as int));
    (front, back)
}

impl ReceiveBuffer {
    /// No line end stands in the part that was searched for one, and no blank line starts in
    /// the part that was searched for one.
    #[verifier::type_invariant]
    spec fn searched(self) -> bool {
        &&& self.next_line_search <= self.data@.len()
        &&& forall|i: int| i + 1 < self.next_line_search ==> !#[trigger] crlf_at(self.data@, i)
        &&& self.multiple_lines_search <= self.data@.len()
        &&& self.multiple_lines_search > 0 ==> self.multiple_lines_search + 2 <= self.data@.len()
        &&& forall|i: int|
            0 <= i < self.multiple_lines_search ==> blank_len(#[trigger] self.data@.skip(i)) == 0
    }

    pub fn new() -> (r: Self)
        ensures
            r@ == Seq::<u8>::empty(),
    {
        ReceiveBuffer { data: Vec::new(), next_line_search: 0, multiple_lines_search: 0 }
    }

    /// Appends received bytes.
    pub fn add(&mut self, byteslike: &[u8])
        ensures
            final(self)@ == old(self)@ + byteslike@,
    {
        proof {
            use_type_invariant(&*self);
        }
        let next_line_search: usize = self.next_line_search;
        let multiple_lines_search: usize = self.multiple_lines_search;
        self.next_line_search = 0;
        self.multiple_lines_search = 0;
        let mut data: Vec<u8> = Vec::new();
        std::mem::swap(&mut data, &mut self.data);
        let ghost before = data@;
        data.extend_from_slice(byteslike);
        assert(data@ =~= before + byteslike@);
        assert forall|i: int| i + 1 < next_line_search implies !#[trigger] crlf_at(data@, i) by {
            assert(!crlf_at(before, i));
        }
        assert forall|i: int| 0 <= i < multiple_lines_search implies blank_len(
            #[trigger] data@.skip(i),
        ) == 0 by {
            assert(blank_len(before.skip(i)) == 0);
        }
        self.data = data;
        self.next_line_search = next_line_search;
        self.multiple_lines_search = multiple_lines_search;
    }

    pub fn len(&self) -> (r: usize)
        ensures
            r == self@.len(),
    {
        self.data.len()
    }

    /// The bytes in the buffer.
    pub fn bytes(&self) -> (r: &[u8])
        ensures
            r@ == self@,
    {
        self.data.as_slice()
    }

    /// Cuts `count` bytes from the front, or all of them if there are fewer.
    pub fn extract(&mut self, count: usize) -> (r: Vec<u8>)
        ensures
            count <= old(self)@.len() ==> r@ == old(self)@.take(count as int) && final(self)@
                == old(self)@.skip(count as int),
            count > old(self)@.len() ==> r@ == old(self)@ && final(self)@ == Seq::<u8>::empty(),
    {
        proof {
            use_type_invariant(&*self);
        }
        self.next_line_search = 0;
        self.multiple_lines_search = 0;
        let mut data: Vec<u8> = Vec::new();
        std::mem::swap(&mut data, &mut self.data);
        let ghost all = data@;
        let len: usize = data.len();
        let (front, back) = cut_front(data, if count < len { count } else { len });
        assert(all.take(all.len() as int) =~= all);
        assert(all.skip(all.len() as int) =~= Seq::<u8>::empty());
        self.data = back;
        front
    }

    /// Cuts at most `count` bytes from the front; `None` if that would be nothing.
    pub fn maybe_extract_at_most(&mut self, count: usize) -> (r: Option<Vec<u8>>)
        ensures
            bytes::opt_view(r) == at_most(old(self)@, count as int),
            final(self)@ == old(self)@.skip(taken(at_most(old(self)@, count as int))),
    {
        assert(self@.skip(0) =~= self@);
        assert(self@.skip(self@.len() as int) =~= Seq::<u8>::empty());
        assert(self@.take(self@.len() as int) =~= self@);
        if count == 0 || self.data.len() == 0 {
            None
        } else {
            Some(self.extract(count))
        }
    }

    /// Cuts the first line from the front, with its line end.
    pub fn maybe_extract_next_line(&mut self) -> (r: Option<Vec<u8>>)
        ensures
            match line_len(old(self)@) {
                Some(n) => bytes::opt_view(r) == Some(old(self)@.take(n)) && final(self)@
                    == old(self)@.skip(n),
                None => r is None && final(self)@ == old(self)@,
            },
    {
        proof {
            use_type_invariant(&*self);
        }
        let len: usize = self.data.len();
        let mut i: usize = if self.next_line_search == 0 { 0 } else { self.next_line_search - 1 };
        while i < len && len - i > 1
            invariant
                i <= len,
                len == self.data@.len(),
                self.data@ == old(self)@,
                forall|j: int| j < i ==> !#[trigger] crlf_at(self.data@, j),
            decreases len - i,
        {
            if self.data[i] == CR && self.data[i + 1] == LF {
                proof {
                    lemma_line_len_is(self.data@, i as int);
                }
                return Some(self.extract(i + 2));
            }
            i = i + 1;
        }
        assert forall|j: int| !#[trigger] crlf_at(self.data@, j) by {
            if j >= i {
                assert(j + 1 >= len);
            }
        }
        proof {
            lemma_line_len(self.data@);
            use_type_invariant(&*self);
        }
        self.next_line_search = len;
        None
    }

    /// Cuts a block of lines from the front; the blank line that ends it goes too.
    pub fn maybe_extract_lines(&mut self) -> (r: Option<Vec<Vec<u8>>>)
        ensures
            match lines_at(old(self)@) {
                Some((lines, n)) => r is Some && bytes::views(r->0@) == lines && final(self)@
                    == old(self)@.skip(n),
                None => r is None && final(self)@ == old(self)@,
            },
    {
        proof {
            use_type_invariant(&*self);
        }
        let len: usize = self.data.len();
        if len >= 1 && self.data[0] == LF {
            let _ = self.extract(1);
            let none: Vec<Vec<u8>> = Vec::new();
            assert(bytes::views(none@) =~= Seq::empty());
            return Some(none);
        }
        if len >= 2 && self.data[0] == CR && self.data[1] == LF {
            let _ = self.extract(2);
            let none: Vec<Vec<u8>> = Vec::new();
            assert(bytes::views(none@) =~= Seq::empty());
            return Some(none);
        }
        let mut i: usize = self.multiple_lines_search;
        while i < len
            invariant
                i <= len,
                len == self.data@.len(),
                self.data@ == old(self)@,
                lines_at(self.data@) == (match block_len(self.data@) {
                    Some(n) => Some((block_lines(self.data@.take(n)), n)),
                    None => None,
                }),
                forall|j: int| 0 <= j < i ==> blank_len(#[trigger] self.data@.skip(j)) == 0,
            decreases len - i,
        {
            let mut n: usize = 0;
            if self.data[i] == LF && len - i >= 2 {
                if self.data[i + 1] == LF {
                    n = 2;
                } else if len - i >= 3 && self.data[i + 1] == CR && self.data[i + 2] == LF {
                    n = 3;
                }
            }
            assert(n == blank_len(self.data@.skip(i as int)));
            if n > 0 {
                proof {
                    lemma_block_len_from(self.data@, i as int);
                    lemma_block_len(self.data@);
                }
                let block: Vec<u8> = self.extract(i + n);
                return Some(lines_of(block.as_slice()));
            }
            i = i + 1;
        }
        proof {
            lemma_block_len_from(self.data@, len as int);
            assert(self.data@.skip(len as int).len() == 0);
            use_type_invariant(&*self);
        }
        self.multiple_lines_search = if len >= 2 { len - 2 } else { 0 };
        None
    }

    /// Tells whether the buffer starts with a byte that can start no message.
    pub fn is_next_line_obviously_invalid_request_line(&self) -> (r: bool)
        ensures
            r == starts_badly(self@),
    {
        self.data.len() > 0 && self.data[0] < 0x21
    }
}

/// Whether `s` starts with a control character or a space.
pub open spec fn starts_badly(s: Seq<u8>) -> bool {
    s.len() > 0 && s[0] < 0x21
}

/// At most `count` bytes from the start of `s`; `None` if that would be nothing.
pub open spec fn at_most(s: Seq<u8>, count: int) -> Option<Seq<u8>> {
    if count <= 0 || s.len() == 0 {
        None
    } else if count < s.len() {
        Some(s.take(count))
    } else {
        Some(s)
    }
}

/// The number of bytes that were cut.
pub open spec fn taken(r: Option<Seq<u8>>) -> int {
    match r {
        Some(s) => s.len() as int,
        None => 0,
    }
}

fn lines_of(block: &[u8]) -> (r: Vec<Vec<u8>>)
    requires
        block@.len() > 0,
        block@.last() == LF,
    ensures
        bytes::views(r@) == block_lines(block@),
{
    let lines: Vec<Vec<u8>> = split_at_byte(block, LF);
    let ghost pieces = bytes::split(block@, LF);
    proof {
        bytes::lemma_split_nonempty(block@.drop_last(), LF);
        assert(pieces.len() >= 2);
        assert(lines@.len() == bytes::views(lines@).len());
    }
    let mut out: Vec<Vec<u8>> = Vec::new();
    let mut i: usize = 0;
    let count: usize = lines.len() - 2;
    while i < count
        invariant
            i <= count,
            count + 2 == lines@.len(),
            bytes::views(lines@) == pieces,
            out@.len() == i,
            forall|j: int| 0 <= j < i ==> (#[trigger] out@[j])@ == chop_cr(pieces[j]),
        decreases count - i,
    {
        let line: &Vec<u8> = &lines[i];
        assert(line@ == pieces[i as int]);
        let len: usize = line.len();
        if len > 0 && line[len - 1] == CR {
            let chopped: &[u8] = &line.as_slice()[0..len - 1];
            assert(chopped@ =~= line@.drop_last());
            out.push(to_vec(chopped));
        } else {
            out.push(to_vec(line.as_slice()));
        }
        i = i + 1;
    }
    assert(bytes::views(out@) =~= block_lines(block@));
    out
}

impl Clone for ReceiveBuffer {
    fn clone(&self) -> (r: Self)
        ensures
            r@ == self@,
    {
        proof {
            use_type_invariant(self);
        }
        ReceiveBuffer {
            data: to_vec(self.data.as_slice()),
            next_line_search: self.next_line_search,
            multiple_lines_search: self.multiple_lines_search,
        }
    }
}

impl From<Vec<u8>> for ReceiveBuffer {
    fn from(data: Vec<u8>) -> (r: Self)
        ensures
            r@ == data@,
    {
        ReceiveBuffer { data, next_line_search: 0, multiple_lines_search: 0 }
    }
}

impl vstd::std_specs::convert::FromSpecImpl<Vec<u8>> for ReceiveBuffer {
    open spec fn obeys_from_spec() -> bool {
        false
    }

    open spec fn from_spec(value: Vec<u8>) -> Self {
        arbitrary()
    }
}

} // verus!
