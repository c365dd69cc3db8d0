//! Operations on byte strings: comparison, letter case, cutting at a separator,
//! and numbers written in digits.
use vstd::prelude::*;
use vstd::string::*;

verus! {

pub const HTAB: u8 = 9;

pub const LF: u8 = 10;

pub const CR: u8 = 13;

pub const SP: u8 = 32;

pub const COMMA: u8 = 44;

pub const DOT: u8 = 46;

pub const COLON: u8 = 58;

pub const SEMICOLON: u8 = 59;

/// The line end of the protocol.
pub open spec fn crlf() -> Seq<u8> {
    seq![CR, LF]
}

/// The contents of a list of byte strings.
pub open spec fn views(v: Seq<Vec<u8>>) -> Seq<Seq<u8>> {
    v.map_values(|x: Vec<u8>| x@)
}

/// The contents of an optional byte string.
pub open spec fn opt_view(v: Option<Vec<u8>>) -> Option<Seq<u8>> {
    match v {
        Some(x) => Some(x@),
        None => None,
    }
}

/// Tells whether two byte strings are equal.
pub fn bytes_eq(a: &[u8], b: &[u8]) -> (r: bool)
    ensures
        r == (a@ == b@),
{
    if a.len() != b.len() {
        return false;
    }
    let mut i: usize = 0;
    while i < a.len()
        invariant
            i <= a.len(),
            a.len() == b.len(),
            a@.take(i as int) == b@.take(i as int),
        decreases a.len() - i,
    {
        if a[i] != b[i] {
            return false;
        }
        i = i + 1;
        assert(a@.take(i as int) =~= a@.take(i - 1).push(a@[i - 1]));
        assert(b@.take(i as int) =~= b@.take(i - 1).push(b@[i - 1]));
    }
    assert(a@.take(i as int) =~= a@);
    assert(b@.take(i as int) =~= b@);
    true
}

/// Copies a byte string.
pub fn to_vec(a: &[u8]) -> (r: Vec<u8>)
    ensures
        r@ == a@,
{
    let mut v: Vec<u8> = Vec::new();
    v.extend_from_slice(a);
    assert(v@ =~= a@);
    v
}

/// Whether `a` comes before `b` in the dictionary order of byte strings.
pub open spec fn precedes(a: Seq<u8>, b: Seq<u8>) -> bool
    decreases a.len(),
{
    if b.len() == 0 {
        false
    } else if a.len() == 0 {
        true
    } else {
        a[0] < b[0] || (a[0] == b[0] && precedes(a.drop_first(), b.drop_first()))
    }
}

/// Compares two byte strings by dictionary order.
pub fn bytes_before(a: &[u8], b: &[u8]) -> (r: bool)
    ensures
        r == precedes(a@, b@),
{
    let mut i: usize = 0;
    assert(a@.skip(0) =~= a@);
    assert(b@.skip(0) =~= b@);
    while i < a.len() && i < b.len() && a[i] == b[i]
        invariant
            i <= a.len(),
            i <= b.len(),
            precedes(a@, b@) == precedes(a@.skip(i as int), b@.skip(i as int)),
        decreases a.len() - i,
    {
        assert(a@.skip(i as int).drop_first() =~= a@.skip(i + 1));
        assert(b@.skip(i as int).drop_first() =~= b@.skip(i + 1));
        i = i + 1;
    }
    i < b.len() && (i == a.len() || a[i] < b[i])
}

/// An ASCII capital letter in lower case; any other byte as it is.
pub open spec fn lower(b: u8) -> u8 {
    if 65 <= b <= 90 {
        (b + 32) as u8
    } else {
        b
    }
}

/// A byte string with its ASCII letters in lower case.
pub open spec fn lowercase(s: Seq<u8>) -> Seq<u8> {
    s.map_values(|b: u8| lower(b))
}

/// Puts the ASCII letters of a byte string in lower case.
pub fn to_lowercase(s: &[u8]) -> (r: Vec<u8>)
    ensures
        r@ == lowercase(s@),
{
    let mut v: Vec<u8> = Vec::new();
    let mut i: usize = 0;
    while i < s.len()
        invariant
            i <= s.len(),
            v@ == lowercase(s@.take(i as int)),
        decreases s.len() - i,
    {
        let b: u8 = s[i];
        v.push(if 65 <= b && b <= 90 { b + 32 } else { b });
        i = i + 1;
        assert(v@ =~= lowercase(s@.take(i as int)));
    }
    assert(s@.take(i as int) =~= s@);
    v
}

/// The pieces of `s` between the separators: one more than there are separators.
pub open spec fn split(s: Seq<u8>, sep: u8) -> Seq<Seq<u8>>
    decreases s.len(),
{
    if s.len() == 0 {
        seq![Seq::<u8>::empty()]
    } else {
        let before = split(s.drop_last(), sep);
        if s.last() == sep {
            before.push(Seq::<u8>::empty())
        } else {
            before.drop_last().push(before.last().push(s.last()))
        }
    }
}

pub proof fn lemma_split_nonempty(s: Seq<u8>, sep: u8)
    ensures
        split(s, sep).len() >= 1,
    decreases s.len(),
{
    if s.len() > 0 {
        lemma_split_nonempty(s.drop_last(), sep);
    }
}

/// A string without the separator is its only piece.
pub proof fn lemma_split_whole(s: Seq<u8>, sep: u8)
    requires
        !s.contains(sep),
    ensures
        split(s, sep) == seq![s],
    decreases s.len(),
{
    if s.len() > 0 {
        assert forall|i: int| 0 <= i < s.drop_last().len() implies s.drop_last()[i] != sep by {
            assert(s[i] != sep);
        }
        lemma_split_whole(s.drop_last(), sep);
        assert(s[s.len() - 1] != sep);
        assert(s.drop_last().push(s.last()) =~= s);
        assert(split(s, sep) =~= seq![s]);
    } else {
        assert(s =~= Seq::<u8>::empty());
        assert(split(s, sep) =~= seq![s]);
    }
}

/// Cutting `a`, a separator and `b` gives the pieces of `a`, and then those of `b`.
pub proof fn lemma_split_join(a: Seq<u8>, sep: u8, b: Seq<u8>)
    ensures
        split(a.push(sep) + b, sep) == split(a, sep) + split(b, sep),
    decreases b.len(),
{
    let s = a.push(sep) + b;
    if b.len() == 0 {
        assert(s =~= a.push(sep));
        assert(s.drop_last() =~= a);
        assert(split(s, sep) =~= split(a, sep) + split(b, sep));
    } else {
        lemma_split_join(a, sep, b.drop_last());
        lemma_split_nonempty(b.drop_last(), sep);
        assert(s.drop_last() =~= a.push(sep) + b.drop_last());
        assert(split(s, sep) =~= split(a, sep) + split(b, sep));
    }
}

/// Cuts a byte string at every separator.
pub fn split_at_byte(s: &[u8], sep: u8) -> (r: Vec<Vec<u8>>)
    ensures
        views(r@) == split(s@, sep),
        r.len() >= 1,
{
    let mut out: Vec<Vec<u8>> = Vec::new();
    let mut piece: Vec<u8> = Vec::new();
    let mut i: usize = 0;
    assert(views(out@).push(piece@) =~= split(s@.take(0), sep));
    while i < s.len()
        invariant
            i <= s.len(),
            views(out@).push(piece@) == split(s@.take(i as int), sep),
        decreases s.len() - i,
    {
        let ghost before = views(out@).push(piece@);
        assert(s@.take(i + 1).drop_last() =~= s@.take(i as int));
        assert(before.last() == piece@);
        assert(before.drop_last() =~= views(out@));
        if s[i] == sep {
            out.push(piece);
            piece = Vec::new();
            assert(views(out@) =~= before);
            assert(views(out@).push(piece@) =~= before.push(Seq::<u8>::empty()));
        } else {
            piece.push(s[i]);
        }
        i = i + 1;
    }
    assert(s@.take(i as int) =~= s@);
    let ghost before = views(out@).push(piece@);
    out.push(piece);
    assert(views(out@) =~= before);
    out
}

/// Whether a byte is a space or a tab.
pub open spec fn is_ows(b: u8) -> bool {
    b == SP || b == HTAB
}

/// The number of spaces and tabs at the start of `s`.
pub open spec fn ows_len(s: Seq<u8>) -> nat
    decreases s.len(),
{
    if s.len() > 0 && is_ows(s[0]) {
        1 + ows_len(s.drop_first())
    } else {
        0
    }
}

pub proof fn lemma_ows_len(s: Seq<u8>)
    ensures
        ows_len(s) <= s.len(),
        forall|i: int| 0 <= i < ows_len(s) ==> is_ows(#[trigger] s[i]),
        ows_len(s) < s.len() ==> !is_ows(s[ows_len(s) as int]),
    decreases s.len(),
{
    if s.len() > 0 && is_ows(s[0]) {
        let t = s.drop_first();
        lemma_ows_len(t);
        assert forall|i: int| 0 <= i < ows_len(s) implies is_ows(#[trigger] s[i]) by {
            if i > 0 {
                assert(s[i] == t[i - 1]);
            }
        }
        if ows_len(s) < s.len() {
            assert(s[ows_len(s) as int] == t[ows_len(t) as int]);
        }
    }
}

/// The count of leading spaces and tabs is the only one that fits.
pub proof fn lemma_ows_len_is(s: Seq<u8>, n: nat)
    requires
        n <= s.len(),
        forall|i: int| 0 <= i < n ==> is_ows(#[trigger] s[i]),
        n < s.len() ==> !is_ows(s[n as int]),
    ensures
        ows_len(s) == n,
{
    lemma_ows_len(s);
    if ows_len(s) < n {
        assert(is_ows(s[ows_len(s) as int]));
    }
}

/// `s` without the spaces and tabs at its end.
pub open spec fn strip_ows_end(s: Seq<u8>) -> Seq<u8>
    decreases s.len(),
{
    if s.len() > 0 && is_ows(s.last()) {
        strip_ows_end(s.drop_last())
    } else {
        s
    }
}

/// `s` without the spaces and tabs at its two ends.
pub open spec fn strip_ows(s: Seq<u8>) -> Seq<u8> {
    strip_ows_end(s.skip(ows_len(s) as int))
}

/// Counts the spaces and tabs at the start of a byte string.
pub fn count_ows(s: &[u8]) -> (n: usize)
    ensures
        n == ows_len(s@),
        n <= s.len(),
{
    let mut n: usize = 0;
    while n < s.len() && (s[n] == SP || s[n] == HTAB)
        invariant
            n <= s.len(),
            forall|i: int| 0 <= i < n ==> is_ows(#[trigger] s@[i]),
        decreases s.len() - n,
    {
        n = n + 1;
    }
    proof {
        lemma_ows_len_is(s@, n as nat);
    }
    n
}

/// Takes the spaces and tabs off the two ends of a byte string.
pub fn without_ows(s: &[u8]) -> (r: &[u8])
    ensures
        r@ == strip_ows(s@),
{
    let start: usize = count_ows(s);
    let mut end: usize = s.len();
    assert(s@.subrange(start as int, end as int) =~= s@.skip(start as int));
    while end > start && (s[end - 1] == SP || s[end - 1] == HTAB)
        invariant
            start <= end <= s.len(),
            strip_ows_end(s@.subrange(start as int, end as int)) == strip_ows(s@),
        decreases end - start,
    {
        assert(s@.subrange(start as int, end as int).drop_last() =~= s@.subrange(
            start as int,
            end - 1,
        ));
        end = end - 1;
    }
    &s[start..end]
}

/// The decimal digits of a number, without leading zeros.
pub open spec fn decimal(n: nat) -> Seq<u8>
    decreases n,
{
    if n < 10 {
        seq![(48 + n) as u8]
    } else {
        decimal(n / 10).push((48 + n % 10) as u8)
    }
}

/// The decimal digits of a number, as text.
pub open spec fn decimal_text(n: nat) -> Seq<char> {
    decimal(n).map_values(|b: u8| b as char)
}

/// Writes a number in decimal digits.
pub fn to_decimal(n: usize) -> (r: Vec<u8>)
    ensures
        r@ == decimal(n as nat),
    decreases n,
{
    if n < 10 {
        let mut v: Vec<u8> = Vec::new();
        v.push(48 + n as u8);
        assert(v@ =~= decimal(n as nat));
        v
    } else {
        let mut v: Vec<u8> = to_decimal(n / 10);
        v.push(48 + (n % 10) as u8);
        v
    }
}

/// The digit that stands for a value below sixteen, letters in lower case.
pub open spec fn hex_digit(d: nat) -> u8 {
    if d < 10 {
        (48 + d) as u8
    } else {
        (87 + d) as u8
    }
}

/// The hexadecimal digits of a number, without leading zeros, letters in lower case.
pub open spec fn hexadecimal(n: nat) -> Seq<u8>
    decreases n,
{
    if n < 16 {
        seq![hex_digit(n)]
    } else {
        hexadecimal(n / 16).push(hex_digit(n % 16))
    }
}

/// Writes a number in hexadecimal digits.
pub fn to_hexadecimal(n: usize) -> (r: Vec<u8>)
    ensures
        r@ == hexadecimal(n as nat),
    decreases n,
{
    let d: u8 = (n % 16) as u8;
    let last: u8 = if d < 10 { 48 + d } else { 87 + d };
    let mut v: Vec<u8> = if n < 16 { Vec::new() } else { to_hexadecimal(n / 16) };
    v.push(last);
    assert(v@ =~= hexadecimal(n as nat));
    v
}

pub open spec fn is_digit(b: u8) -> bool {
    48 <= b <= 57
}

pub open spec fn is_hex_digit(b: u8) -> bool {
    is_digit(b) || 65 <= b <= 70 || 97 <= b <= 102
}

/// Whether a byte string is one or more decimal digits.
pub open spec fn is_digits(s: Seq<u8>) -> bool {
    s.len() > 0 && forall|i: int| 0 <= i < s.len() ==> is_digit(#[trigger] s[i])
}

/// The value of a decimal or hexadecimal digit.
pub open spec fn digit_value(b: u8) -> nat {
    if is_digit(b) {
        (b - 48) as nat
    } else if 65 <= b <= 70 {
        (b - 55) as nat
    } else {
        (b - 87) as nat
    }
}

/// The number that a string of digits stands for.
pub open spec fn digits_value(s: Seq<u8>, radix: nat) -> nat
    decreases s.len(),
{
    if s.len() == 0 {
        0
    } else {
        digits_value(s.drop_last(), radix) * radix + digit_value(s.last())
    }
}

/// Tells whether a byte is a decimal digit.
pub fn digit(b: u8) -> (r: bool)
    ensures
        r == is_digit(b),
{
    48 <= b && b <= 57
}

/// Tells whether a byte is a hexadecimal digit.
pub fn is_hex(b: u8) -> (r: bool)
    ensures
        r == is_hex_digit(b),
{
    digit(b) || (65 <= b && b <= 70) || (97 <= b && b <= 102)
}

/// Tells whether a byte string is one or more decimal digits.
pub fn all_digits(s: &[u8]) -> (r: bool)
    ensures
        r == is_digits(s@),
{
    let mut i: usize = 0;
    while i < s.len()
        invariant
            i <= s.len(),
            forall|j: int| 0 <= j < i ==> is_digit(#[trigger] s@[j]),
        decreases s.len() - i,
    {
        if !digit(s[i]) {
            assert(!is_digit(s@[i as int]));
            return false;
        }
        i = i + 1;
    }
    s.len() > 0
}

proof fn lemma_digits_value_grows(s: Seq<u8>, radix: nat, i: int)
    requires
        0 <= i <= s.len(),
        radix >= 1,
    ensures
        digits_value(s.take(i), radix) <= digits_value(s, radix),
    decreases s.len() - i,
{
    if i < s.len() {
        lemma_digits_value_grows(s, radix, i + 1);
        let t = s.take(i + 1);
        assert(t.drop_last() =~= s.take(i));
        let v = digits_value(s.take(i), radix);
        assert(v * radix >= v) by (nonlinear_arith)
            requires
                radix >= 1,
        ;
    } else {
        assert(s.take(i) =~= s);
    }
}

/// Reads a number written in digits; `None` if it is above `max`.
pub fn parse_digits(s: &[u8], radix: usize, max: usize) -> (r: Option<usize>)
    requires
        radix == 10 || radix == 16,
        forall|i: int| 0 <= i < s@.len() ==> is_hex_digit(#[trigger] s@[i]),
    ensures
        r == (if digits_value(s@, radix as nat) <= max {
            Some(digits_value(s@, radix as nat) as usize)
        } else {
            None
        }),
{
    let mut n: usize = 0;
    let mut i: usize = 0;
    while i < s.len()
        invariant
            i <= s.len(),
            radix == 10 || radix == 16,
            forall|j: int| 0 <= j < s@.len() ==> is_hex_digit(#[trigger] s@[j]),
            n == digits_value(s@.take(i as int), radix as nat),
            n <= max,
        decreases s.len() - i,
    {
        let b: u8 = s[i];
        assert(is_hex_digit(s@[i as int]));
        let d: usize = (if digit(b) {
            b - 48
        } else if 65 <= b && b <= 70 {
            b - 55
        } else {
            b - 87
        }) as usize;
        assert(d == digit_value(b));
        assert(s@.take(i + 1).drop_last() =~= s@.take(i as int));
        proof {
            lemma_digits_value_grows(s@, radix as nat, i + 1);
        }
        if d > max || n > (max - d) / radix {
            assert(digits_value(s@.take(i + 1), radix as nat) > max) by {
                if d <= max {
                    let q = ((max - d) / radix as int) as int;
                    assert(n >= q + 1);
                    assert(n * radix >= (q + 1) * radix) by (nonlinear_arith)
                        requires
                            n >= q + 1,
                            radix >= 1,
                    ;
                    assert((q + 1) * radix > max - d) by (nonlinear_arith)
                        requires
                            q == (max - d) / radix as int,
                            radix >= 1,
                    ;
                } else {
                    assert(n * radix >= 0) by (nonlinear_arith);
                }
            }
            return None;
        }
        assert(n * radix <= max - d) by (nonlinear_arith)
            requires
                n <= (max - d) / radix as int,
                radix >= 1,
        ;
        n = n * radix + d;
        i = i + 1;
    }
    assert(s@.take(i as int) =~= s@);
    Some(n)
}

} // verus!
