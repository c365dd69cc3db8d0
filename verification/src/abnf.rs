//! The grammar of HTTP/1.1 messages: tokens, header fields, and the first line of
//! requests, responses and chunks.
use vstd::prelude::*;
use vstd::string::*;
use vstd::utf8::*;

use crate::bytes;
use crate::bytes::{
    all_digits, bytes_eq, count_ows, digit, is_hex, to_vec, without_ows, COLON, CR, DOT, HTAB, LF,
    SEMICOLON, SP,
};
use crate::text;
use crate::text::{scalar_at, white_space};

verus! {

/// The classes of bytes that the grammar repeats.
#[derive(Clone, Copy, Debug, PartialEq, Eq)]
pub enum Class {
    /// The characters of a token: a method or a field name.
    Token,
    /// The visible ASCII characters.
    Visible,
    /// The hexadecimal digits, in either case.
    HexDigit,
    /// Everything but the line feed.
    NotLineFeed,
}

pub open spec fn is_token_byte(b: u8) -> bool {
    ||| 48 <= b <= 57
    ||| 65 <= b <= 90
    ||| 94 <= b <= 122
    ||| b == 33
    ||| 35 <= b <= 39
    ||| b == 42
    ||| b == 43
    ||| b == 45
    ||| b == 46
    ||| b == 124
    ||| b == 126
}

pub open spec fn in_class(class: Class, b: u8) -> bool {
    match class {
        Class::Token => is_token_byte(b),
        Class::Visible => 0x21 <= b <= 0x7e,
        Class::HexDigit => bytes::is_hex_digit(b),
        Class::NotLineFeed => b != LF,
    }
}

/// Tells whether a byte belongs to a class.
pub fn belongs(class: Class, b: u8) -> (r: bool)
    ensures
        r == in_class(class, b),
{
    match class {
        Class::Token => (48 <= b && b <= 57) || (65 <= b && b <= 90) || (94 <= b && b <= 122) || b
            == 33 || (35 <= b && b <= 39) || b == 42 || b == 43 || b == 45 || b == 46 || b == 124
            || b == 126,
        Class::Visible => 0x21 <= b && b <= 0x7e,
        Class::HexDigit => is_hex(b),
        Class::NotLineFeed => b != LF,
    }
}

/// The number of bytes of the class at the start of `s`.
pub open spec fn run(s: Seq<u8>, class: Class) -> nat
    decreases s.len(),
{
    if s.len() > 0 && in_class(class, s[0]) {
        1 + run(s.drop_first(), class)
    } else {
        0
    }
}

pub proof fn lemma_run(s: Seq<u8>, class: Class)
    ensures
        run(s, class) <= s.len(),
        forall|i: int| 0 <= i < run(s, class) ==> in_class(class, #[trigger] s[i]),
        run(s, class) < s.len() ==> !in_class(class, s[run(s, class) as int]),
    decreases s.len(),
{
    if s.len() > 0 && in_class(class, s[0]) {
        let t = s.drop_first();
        lemma_run(t, class);
        assert forall|i: int| 0 <= i < run(s, class) implies in_class(class, #[trigger] s[i]) by {
            if i > 0 {
                assert(s[i] == t[i - 1]);
            }
        }
        if run(s, class) < s.len() {
            assert(s[run(s, class) as int] == t[run(t, class) as int]);
        }
    }
}

/// The length of the leading run is the only one that fits.
pub proof fn lemma_run_is(s: Seq<u8>, class: Class, n: nat)
    requires
        n <= s.len(),
        forall|i: int| 0 <= i < n ==> in_class(class, #[trigger] s[i]),
        n < s.len() ==> !in_class(class, s[n as int]),
    ensures
        run(s, class) == n,
{
    lemma_run(s, class);
    if run(s, class) < n {
        assert(in_class(class, s[run(s, class) as int]));
    }
}

/// Counts the bytes of a class at the start of a byte string.
pub fn count_run(s: &[u8], class: Class) -> (n: usize)
    ensures
        n == run(s@, class),
        n <= s.len(),
{
    let mut n: usize = 0;
    while n < s.len() && belongs(class, s[n])
        invariant
            n <= s.len(),
            forall|i: int| 0 <= i < n ==> in_class(class, #[trigger] s@[i]),
        decreases s.len() - n,
    {
        n = n + 1;
    }
    proof {
        lemma_run_is(s@, class, n as nat);
    }
    n
}

/// Whether `s` is one or more bytes, all of the class.
pub open spec fn is_run(s: Seq<u8>, class: Class) -> bool {
    s.len() > 0 && forall|i: int| 0 <= i < s.len() ==> in_class(class, #[trigger] s[i])
}

/// A method or a field name.
pub open spec fn is_token(s: Seq<u8>) -> bool {
    is_run(s, Class::Token)
}

/// The target of a request.
pub open spec fn is_request_target(s: Seq<u8>) -> bool {
    is_run(s, Class::Visible)
}

/// Tells whether a byte string is one or more bytes, all of a class.
pub fn matches_run(s: &[u8], class: Class) -> (r: bool)
    ensures
        r == is_run(s@, class),
{
    let n: usize = count_run(s, class);
    proof {
        lemma_run(s@, class);
        if n < s.len() {
            assert(!in_class(class, s@[n as int]));
        }
    }
    n > 0 && n == s.len()
}

/// Whether a scalar value is visible in a header value: neither NUL nor white space.
pub open spec fn is_field_visible(c: u32) -> bool {
    c != 0 && !text::is_white_space(c)
}

/// Whether a scalar value may stand in a header value or in a reason phrase.
pub open spec fn is_field_char(c: u32) -> bool {
    is_field_visible(c) || c == SP || c == HTAB
}

/// The length of the longest start of `s` that is UTF-8 text of visible characters,
/// spaces and tabs.
pub open spec fn field_text_len(s: Seq<u8>) -> int
    decreases s.len(),
{
    if valid_first_scalar(s) && is_field_char(decode_first_scalar(s)) {
        length_of_first_scalar(s) + field_text_len(pop_first_scalar(s))
    } else {
        0
    }
}

pub proof fn lemma_field_text_len(s: Seq<u8>)
    ensures
        0 <= field_text_len(s) <= s.len(),
    decreases s.len(),
{
    if valid_first_scalar(s) && is_field_char(decode_first_scalar(s)) {
        lemma_field_text_len(pop_first_scalar(s));
    }
}

/// A header value: empty, or text of visible characters with spaces and tabs between them.
pub open spec fn is_field_value(s: Seq<u8>) -> bool {
    &&& field_text_len(s) == s.len()
    &&& s.len() > 0 ==> !bytes::is_ows(s[0]) && !bytes::is_ows(s.last())
}

/// Header text is well-formed UTF-8.
pub proof fn lemma_field_text_utf8(s: Seq<u8>)
    requires
        field_text_len(s) == s.len(),
    ensures
        valid_utf8(s),
    decreases s.len(),
{
    if s.len() > 0 {
        lemma_field_text_utf8(pop_first_scalar(s));
    }
}

/// Measures the header text at the start of a byte string.
pub fn count_field_text(s: &[u8]) -> (n: usize)
    ensures
        n == field_text_len(s@),
        n <= s.len(),
{
    let mut i: usize = 0;
    assert(s@.skip(0) =~= s@);
    while i < s.len()
        invariant
            i <= s.len(),
            field_text_len(s@) == i + field_text_len(s@.skip(i as int)),
        ensures
            i <= s.len(),
            field_text_len(s@) == i,
        decreases s.len() - i,
    {
        match scalar_at(s, i) {
            Some((c, n)) => {
                if c == 0 || (white_space(c) && c != 32 && c != 9) {
                    break;
                }
                assert(pop_first_scalar(s@.skip(i as int)) =~= s@.skip(i + n));
                i = i + n;
            },
            None => {
                break;
            },
        }
    }
    i
}

/// Tells whether a byte string is a header value.
pub fn matches_field_value(s: &[u8]) -> (r: bool)
    ensures
        r == is_field_value(s@),
{
    let n: usize = count_field_text(s);
    if n < s.len() {
        return false;
    }
    if n == 0 {
        return true;
    }
    s[0] != SP && s[0] != HTAB && s[n - 1] != SP && s[n - 1] != HTAB
}

/// Tells whether a byte string is well-formed UTF-8.
pub fn matches_utf8(s: &[u8]) -> (r: bool)
    ensures
        r == valid_utf8(s@),
{
    let mut i: usize = 0;
    assert(s@.skip(0) =~= s@);
    while i < s.len()
        invariant
            i <= s.len(),
            valid_utf8(s@) == valid_utf8(s@.skip(i as int)),
        decreases s.len() - i,
    {
        match scalar_at(s, i) {
            Some((_, n)) => {
                assert(pop_first_scalar(s@.skip(i as int)) =~= s@.skip(i + n));
                i = i + n;
            },
            None => {
                return false;
            },
        }
    }
    true
}

/// The name and the value of a header line: a name, a colon, and a value that spaces and
/// tabs may surround.
pub open spec fn header_field(line: Seq<u8>) -> Option<(Seq<u8>, Seq<u8>)> {
    let n = run(line, Class::Token) as int;
    let value = bytes::strip_ows(line.skip(n + 1));
    if 0 < n < line.len() && line[n] == COLON && is_field_value(value) {
        Some((line.take(n), value))
    } else {
        None
    }
}

/// The contents of a name and a value.
pub open spec fn pair_view(p: (Vec<u8>, Vec<u8>)) -> (Seq<u8>, Seq<u8>) {
    (p.0@, p.1@)
}

/// Reads a header line.
pub fn match_header_field(line: &[u8]) -> (r: Option<(Vec<u8>, Vec<u8>)>)
    ensures
        match r {
            Some(p) => header_field(line@) == Some(pair_view(p)),
            None => header_field(line@) is None,
        },
{
    let n: usize = count_run(line, Class::Token);
    if n == 0 || n >= line.len() || line[n] != COLON {
        return None;
    }
    let rest: &[u8] = &line[n + 1..line.len()];
    assert(rest@ =~= line@.skip(n + 1));
    let value: &[u8] = without_ows(rest);
    if !matches_field_value(value) {
        return None;
    }
    let name: &[u8] = &line[0..n];
    assert(name@ =~= line@.take(n as int));
    Some((to_vec(name), to_vec(value)))
}

/// Whether `s` starts with `HTTP/` and a version of two digits.
pub open spec fn starts_with_version(s: Seq<u8>) -> bool {
    &&& s.len() >= 8
    &&& s.take(5) == "HTTP/".spec_bytes()
    &&& bytes::is_digit(s[5])
    &&& s[6] == DOT
    &&& bytes::is_digit(s[7])
}

/// Tells whether a byte string starts with `HTTP/` and a version.
pub fn match_version(s: &[u8]) -> (r: bool)
    ensures
        r == starts_with_version(s@),
{
    if s.len() < 8 {
        return false;
    }
    let start: &[u8] = &s[0..5];
    assert(start@ =~= s@.take(5));
    bytes_eq(start, "HTTP/".as_bytes()) && digit(s[5]) && s[6] == DOT && digit(s[7])
}

/// What the first line of a request says.
#[verifier::ext_equal]
pub struct RequestLineView {
    pub method: Seq<u8>,
    pub target: Seq<u8>,
    pub http_version: Seq<u8>,
}

/// The parts of the first line of a request.
pub struct RequestLine {
    pub method: Vec<u8>,
    pub target: Vec<u8>,
    pub http_version: Vec<u8>,
}

impl View for RequestLine {
    type V = RequestLineView;

    open spec fn view(&self) -> RequestLineView {
        RequestLineView {
            method: self.method@,
            target: self.target@,
            http_version: self.http_version@,
        }
    }
}

/// The request line that starts at the start of `s`: a method, a target and a version.
pub open spec fn request_line_at(s: Seq<u8>) -> Option<RequestLineView> {
    let m = run(s, Class::Token) as int;
    let t = s.skip(m + 1);
    let n = run(t, Class::Visible) as int;
    let v = t.skip(n + 1);
    if 0 < m < s.len() && s[m] == SP && 0 < n < t.len() && t[n] == SP
        && starts_with_version(v) {
        Some(
            RequestLineView {
                method: s.take(m),
                target: t.take(n),
                http_version: v.subrange(5, 8),
            },
        )
    } else {
        None
    }
}

/// The leftmost request line in `s`.
pub open spec fn request_line(s: Seq<u8>) -> Option<RequestLineView>
    decreases s.len(),
{
    if s.len() == 0 {
        None
    } else {
        match request_line_at(s) {
            Some(line) => Some(line),
            None => request_line(s.drop_first()),
        }
    }
}

fn match_request_line_at(s: &[u8]) -> (r: Option<RequestLine>)
    ensures
        match r {
            Some(line) => request_line_at(s@) == Some(line@),
            None => request_line_at(s@) is None,
        },
{
    let m: usize = count_run(s, Class::Token);
    if m == 0 || m >= s.len() || s[m] != SP {
        return None;
    }
    let t: &[u8] = &s[m + 1..s.len()];
    assert(t@ =~= s@.skip(m + 1));
    let n: usize = count_run(t, Class::Visible);
    if n == 0 || n >= t.len() || t[n] != SP {
        return None;
    }
    let v: &[u8] = &t[n + 1..t.len()];
    assert(v@ =~= t@.skip(n + 1));
    if !match_version(v) {
        return None;
    }
    let line = RequestLine {
        method: to_vec(&s[0..m]),
        target: to_vec(&t[0..n]),
        http_version: to_vec(&v[5..8]),
    };
    assert(line.method@ =~= s@.take(m as int));
    assert(line.target@ =~= t@.take(n as int));
    assert(line.http_version@ =~= v@.subrange(5, 8));
    Some(line)
}

/// Finds the request line in the first line of a message.
pub fn match_request_line(s: &[u8]) -> (r: Option<RequestLine>)
    ensures
        match r {
            Some(line) => request_line(s@) == Some(line@),
            None => request_line(s@) is None,
        },
{
    let mut i: usize = 0;
    assert(s@.skip(0) =~= s@);
    while i < s.len()
        invariant
            i <= s.len(),
            request_line(s@) == request_line(s@.skip(i as int)),
        decreases s.len() - i,
    {
        let t: &[u8] = &s[i..s.len()];
        assert(t@ =~= s@.skip(i as int));
        match match_request_line_at(t) {
            Some(line) => {
                return Some(line);
            },
            None => {},
        }
        assert(t@.drop_first() =~= s@.skip(i + 1));
        i = i + 1;
    }
    None
}

/// What the first line of a response says.
#[verifier::ext_equal]
pub struct StatusLineView {
    pub http_version: Seq<u8>,
    pub status_code: Seq<u8>,
    pub reason: Option<Seq<u8>>,
}

/// The parts of the first line of a response. The reason is missing where no space follows
/// the status code.
pub struct StatusLine {
    pub http_version: Vec<u8>,
    pub status_code: Vec<u8>,
    pub reason: Option<Vec<u8>>,
}

impl View for StatusLine {
    type V = StatusLineView;

    open spec fn view(&self) -> StatusLineView {
        StatusLineView {
            http_version: self.http_version@,
            status_code: self.status_code@,
            reason: bytes::opt_view(self.reason),
        }
    }
}

/// The status line that starts at the start of `s`: a version, a code of three digits, and
/// after a space the reason.
pub open spec fn status_line_at(s: Seq<u8>) -> Option<StatusLineView> {
    if starts_with_version(s) && s.len() >= 12 && s[8] == SP && bytes::is_digits(
        s.subrange(9, 12),
    ) {
        Some(
            StatusLineView {
                http_version: s.subrange(5, 8),
                status_code: s.subrange(9, 12),
                reason: if s.len() > 12 && s[12] == SP {
                    Some(s.skip(13).take(field_text_len(s.skip(13))))
                } else {
                    None
                },
            },
        )
    } else {
        None
    }
}

/// The leftmost status line in `s`.
pub open spec fn status_line(s: Seq<u8>) -> Option<StatusLineView>
    decreases s.len(),
{
    if s.len() == 0 {
        None
    } else {
        match status_line_at(s) {
            Some(line) => Some(line),
            None => status_line(s.drop_first()),
        }
    }
}

fn match_status_line_at(s: &[u8]) -> (r: Option<StatusLine>)
    ensures
        match r {
            Some(line) => status_line_at(s@) == Some(line@),
            None => status_line_at(s@) is None,
        },
{
    if !match_version(s) || s.len() < 12 || s[8] != SP || !all_digits(&s[9..12]) {
        return None;
    }
    let version: Vec<u8> = to_vec(&s[5..8]);
    let code: Vec<u8> = to_vec(&s[9..12]);
    let reason: Option<Vec<u8>> = if s.len() > 12 && s[12] == SP {
        let t: &[u8] = &s[13..s.len()];
        assert(t@ =~= s@.skip(13));
        let n: usize = count_field_text(t);
        let text: &[u8] = &t[0..n];
        assert(text@ =~= t@.take(n as int));
        Some(to_vec(text))
    } else {
        None
    };
    Some(StatusLine { http_version: version, status_code: code, reason })
}

/// Finds the status line in the first line of a message.
pub fn match_status_line(s: &[u8]) -> (r: Option<StatusLine>)
    ensures
        match r {
            Some(line) => status_line(s@) == Some(line@),
            None => status_line(s@) is None,
        },
{
    let mut i: usize = 0;
    assert(s@.skip(0) =~= s@);
    while i < s.len()
        invariant
            i <= s.len(),
            status_line(s@) == status_line(s@.skip(i as int)),
        decreases s.len() - i,
    {
        let t: &[u8] = &s[i..s.len()];
        assert(t@ =~= s@.skip(i as int));
        match match_status_line_at(t) {
            Some(line) => {
                return Some(line);
            },
            None => {},
        }
        assert(t@.drop_first() =~= s@.skip(i + 1));
        i = i + 1;
    }
    None
}

/// The status code of a status line is three digits.
pub proof fn lemma_status_code(s: Seq<u8>)
    ensures
        status_line(s) matches Some(line) ==> line.status_code.len() == 3 && bytes::is_digits(
            line.status_code,
        ),
    decreases s.len(),
{
    if s.len() > 0 && status_line_at(s) is None {
        lemma_status_code(s.drop_first());
    }
}

/// Whether `s` starts with what follows the size in a chunk header: an extension after a
/// semicolon, or spaces and tabs, and then the line end.
pub open spec fn starts_with_chunk_tail(s: Seq<u8>) -> bool {
    if s.len() > 0 && s[0] == SEMICOLON {
        let end = run(s, Class::NotLineFeed) as int;
        &&& 2 <= end < s.len()
        &&& s[end - 1] == CR
        &&& valid_utf8(s.subrange(1, end - 1))
    } else {
        let end = bytes::ows_len(s) as int;
        &&& end + 1 < s.len()
        &&& s[end] == CR
        &&& s[end + 1] == LF
    }
}

/// The digits of the chunk header that starts at the start of `s`: at most twenty.
pub open spec fn chunk_header_at(s: Seq<u8>) -> Option<Seq<u8>> {
    let n = run(s, Class::HexDigit) as int;
    if 1 <= n <= 20 && starts_with_chunk_tail(s.skip(n)) {
        Some(s.take(n))
    } else {
        None
    }
}

/// The digits of the leftmost chunk header in `s`.
pub open spec fn chunk_header(s: Seq<u8>) -> Option<Seq<u8>>
    decreases s.len(),
{
    if s.len() == 0 {
        None
    } else {
        match chunk_header_at(s) {
            Some(size) => Some(size),
            None => chunk_header(s.drop_first()),
        }
    }
}

/// The size in a chunk header is written in hexadecimal digits.
pub proof fn lemma_chunk_size_digits(s: Seq<u8>)
    ensures
        chunk_header(s) matches Some(size) ==> is_run(size, Class::HexDigit),
    decreases s.len(),
{
    if s.len() > 0 {
        match chunk_header_at(s) {
            Some(size) => {
                lemma_run(s, Class::HexDigit);
                assert forall|i: int| 0 <= i < size.len() implies in_class(
                    Class::HexDigit,
                    #[trigger] size[i],
                ) by {
                    assert(size[i] == s[i]);
                }
            },
            None => {
                lemma_chunk_size_digits(s.drop_first());
            },
        }
    }
}

fn match_chunk_tail(s: &[u8]) -> (r: bool)
    ensures
        r == starts_with_chunk_tail(s@),
{
    if s.len() > 0 && s[0] == SEMICOLON {
        let end: usize = count_run(s, Class::NotLineFeed);
        2 <= end && end < s.len() && s[end - 1] == CR && matches_utf8(&s[1..end - 1])
    } else {
        let end: usize = count_ows(s);
        end < s.len() && s.len() - end > 1 && s[end] == CR && s[end + 1] == LF
    }
}

/// Finds the size in a chunk header.
pub fn match_chunk_header(s: &[u8]) -> (r: Option<Vec<u8>>)
    ensures
        bytes::opt_view(r) == chunk_header(s@),
{
    let mut i: usize = 0;
    assert(s@.skip(0) =~= s@);
    while i < s.len()
        invariant
            i <= s.len(),
            chunk_header(s@) == chunk_header(s@.skip(i as int)),
        decreases s.len() - i,
    {
        let t: &[u8] = &s[i..s.len()];
        assert(t@ =~= s@.skip(i as int));
        let n: usize = count_run(t, Class::HexDigit);
        if 1 <= n && n <= 20 {
            let tail: &[u8] = &t[n..t.len()];
            assert(tail@ =~= t@.skip(n as int));
            if match_chunk_tail(tail) {
                let size: &[u8] = &t[0..n];
                assert(size@ =~= t@.take(n as int));
                return Some(to_vec(size));
            }
        }
        assert(t@.drop_first() =~= s@.skip(i + 1));
        i = i + 1;
    }
    None
}

} // verus!
