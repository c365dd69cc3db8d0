//! UTF-8 text inside byte strings: one scalar value at a time, and white space.
use vstd::prelude::*;
use vstd::utf8::*;

verus! {

/// Whether a scalar value has the Unicode property `White_Space`.
pub open spec fn is_white_space(c: u32) -> bool {
    ||| 0x9 <= c <= 0xd
    ||| c == 0x20
    ||| c == 0x85
    ||| c == 0xa0
    ||| c == 0x1680
    ||| 0x2000 <= c <= 0x200a
    ||| c == 0x2028
    ||| c == 0x2029
    ||| c == 0x202f
    ||| c == 0x205f
    ||| c == 0x3000
}

/// Tells whether a scalar value is white space.
pub fn white_space(c: u32) -> (r: bool)
    ensures
        r == is_white_space(c),
{
    (0x9 <= c && c <= 0xd) || c == 0x20 || c == 0x85 || c == 0xa0 || c == 0x1680 || (0x2000 <= c
        && c <= 0x200a) || c == 0x2028 || c == 0x2029 || c == 0x202f || c == 0x205f || c == 0x3000
}

/// A byte below 128 stands for itself.
pub proof fn lemma_ascii_scalar(s: Seq<u8>)
    requires
        s.len() > 0,
        s[0] < 128,
    ensures
        valid_first_scalar(s),
        decode_first_scalar(s) == s[0],
        length_of_first_scalar(s) == 1,
        pop_first_scalar(s) == s.drop_first(),
{
    let b = s[0];
    assert(b & 0x7f == b) by (bit_vector)
        requires
            b < 128,
    ;
    assert(pop_first_scalar(s) =~= s.drop_first());
}

/// Decodes the scalar value that starts at byte `i`, and gives it with its length in bytes;
/// `None` where no well-formed one starts there.
pub fn scalar_at(s: &[u8], i: usize) -> (r: Option<(u32, usize)>)
    requires
        i <= s.len(),
    ensures
        match r {
            Some((c, n)) => {
                &&& valid_first_scalar(s@.skip(i as int))
                &&& c == decode_first_scalar(s@.skip(i as int))
                &&& n == length_of_first_scalar(s@.skip(i as int))
                &&& 1 <= n <= s.len() - i
            },
            None => !valid_first_scalar(s@.skip(i as int)),
        },
{
    let ghost t = s@.skip(i as int);
    let left: usize = s.len() - i;
    if left == 0 {
        return None;
    }
    let b1: u8 = s[i];
    assert(t[0] == b1);
    if b1 <= 0x7f {
        proof {
            lemma_ascii_scalar(t);
        }
        return Some((b1 as u32, 1));
    }
    if b1 < 0xc0 || b1 > 0xf7 || left < 2 {
        return None;
    }
    let b2: u8 = s[i + 1];
    assert(t[1] == b2);
    if b2 < 0x80 || b2 > 0xbf {
        return None;
    }
    if b1 <= 0xdf {
        let c: u32 = (((b1 & 0x1f) as u32) << 6) | ((b2 & 0x3f) as u32);
        return if c >= 0x80 && !(0xd800 <= c && c <= 0xdfff) { Some((c, 2)) } else { None };
    }
    if left < 3 {
        return None;
    }
    let b3: u8 = s[i + 2];
    assert(t[2] == b3);
    if b3 < 0x80 || b3 > 0xbf {
        return None;
    }
    if b1 <= 0xef {
        let c: u32 = (((b1 & 0xf) as u32) << 12) | (((b2 & 0x3f) as u32) << 6) | ((b3
            & 0x3f) as u32);
        return if c >= 0x800 && !(0xd800 <= c && c <= 0xdfff) { Some((c, 3)) } else { None };
    }
    if left < 4 {
        return None;
    }
    let b4: u8 = s[i + 3];
    assert(t[3] == b4);
    if b4 < 0x80 || b4 > 0xbf {
        return None;
    }
    let c: u32 = (((b1 & 0x7) as u32) << 18) | (((b2 & 0x3f) as u32) << 12) | (((b3
        & 0x3f) as u32) << 6) | ((b4 & 0x3f) as u32);
    if 0x10000 <= c && c <= 0x10ffff {
        Some((c, 4))
    } else {
        None
    }
}

/// `s` without the white space at its start.
pub open spec fn trim_start(s: Seq<u8>) -> Seq<u8>
    decreases s.len(),
{
    if valid_first_scalar(s) && is_white_space(decode_first_scalar(s)) {
        trim_start(pop_first_scalar(s))
    } else {
        s
    }
}

/// The length of `s` up to the end of its last scalar value that is not white space.
pub open spec fn text_len(s: Seq<u8>) -> int
    decreases s.len(),
{
    if !valid_first_scalar(s) {
        0
    } else {
        let rest = text_len(pop_first_scalar(s));
        if rest > 0 {
            length_of_first_scalar(s) + rest
        } else if is_white_space(decode_first_scalar(s)) {
            0
        } else {
            length_of_first_scalar(s)
        }
    }
}

/// The text `s` without the white space at its two ends.
pub open spec fn trim(s: Seq<u8>) -> Seq<u8> {
    trim_start(s).take(text_len(trim_start(s)))
}

/// Takes the white space off the two ends of a text in UTF-8.
pub fn trimmed(s: &[u8]) -> (r: &[u8])
    ensures
        r@ == trim(s@),
{
    let mut start: usize = 0;
    assert(s@.skip(0) =~= s@);
    while start < s.len()
        invariant
            start <= s.len(),
            trim_start(s@.skip(start as int)) == trim_start(s@),
        ensures
            start <= s.len(),
            trim_start(s@) == s@.skip(start as int),
        decreases s.len() - start,
    {
        match scalar_at(s, start) {
            Some((c, n)) => {
                if !white_space(c) {
                    break;
                }
                assert(pop_first_scalar(s@.skip(start as int)) =~= s@.skip(start + n));
                start = start + n;
            },
            None => {
                break;
            },
        }
    }
    let ghost t = s@.skip(start as int);
    let mut i: usize = start;
    let mut end: usize = start;
    while i < s.len()
        invariant
            start <= end <= i <= s.len(),
            t == s@.skip(start as int),
            text_len(t) == (if text_len(s@.skip(i as int)) > 0 {
                i - start + text_len(s@.skip(i as int))
            } else {
                end - start
            }),
        ensures
            start <= end <= s.len(),
            text_len(t) == end - start,
        decreases s.len() - i,
    {
        match scalar_at(s, i) {
            Some((c, n)) => {
                assert(pop_first_scalar(s@.skip(i as int)) =~= s@.skip(i + n));
                i = i + n;
                if !white_space(c) {
                    end = i;
                }
            },
            None => {
                break;
            },
        }
    }
    assert(s@.subrange(start as int, end as int) =~= t.take(end - start));
    &s[start..end]
}

/// A text of ASCII bytes that are not white space has nothing to take off.
pub proof fn lemma_trim_solid(s: Seq<u8>)
    requires
        forall|i: int| 0 <= i < s.len() ==> (#[trigger] s[i]) < 128 && !is_white_space(s[i] as u32),
    ensures
        trim(s) == s,
{
    lemma_text_len_solid(s);
    if s.len() > 0 {
        lemma_ascii_scalar(s);
    }
    assert(s.take(s.len() as int) =~= s);
}

proof fn lemma_text_len_solid(s: Seq<u8>)
    requires
        forall|i: int| 0 <= i < s.len() ==> (#[trigger] s[i]) < 128 && !is_white_space(s[i] as u32),
    ensures
        text_len(s) == s.len(),
    decreases s.len(),
{
    if s.len() > 0 {
        lemma_ascii_scalar(s);
        lemma_text_len_solid(s.drop_first());
    }
}

} // verus!
