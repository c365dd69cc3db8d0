//! What the fields of a message name, said of the bytes of their values: the items between the
//! commas, the order of versions, and numbers in digits.
use vstd::prelude::*;
use vstd::string::*;

use crate::bytes;
use crate::bytes::{COMMA, HTAB, SP};
use crate::headers;
use crate::headers::Field;
use crate::text;

verus! {

/// Whether the bytes of `s` from `a` up to `b` are all that stands there between two separators,
/// or between one and an end of `s`.
pub open spec fn between(s: Seq<u8>, sep: u8, a: int, b: int) -> bool {
    &&& 0 <= a <= b <= s.len()
    &&& a == 0 || s[a - 1] == sep
    &&& b == s.len() || s[b] == sep
    &&& forall|i: int| a <= i < b ==> #[trigger] s[i] != sep
}

/// Whether `item` stands between commas in a value, white space and letter case aside.
pub open spec fn lists(value: Seq<u8>, item: Seq<u8>) -> bool {
    exists|a: int, b: int| #[trigger]
        between(bytes::lowercase(value), COMMA, a, b) && text::trim(
            bytes::lowercase(value).subrange(a, b),
        ) == item
}

/// Whether some field of a name lists an item.
pub open spec fn names(fields: Seq<Field>, name: Seq<u8>, item: Seq<u8>) -> bool {
    exists|i: int|
        0 <= i < fields.len() && (#[trigger] fields[i]).name == name && lists(
            fields[i].value,
            item,
        )
}

/// Whether there is a field of a name.
pub open spec fn has_field(fields: Seq<Field>, name: Seq<u8>) -> bool {
    exists|i: int| 0 <= i < fields.len() && (#[trigger] fields[i]).name == name
}

/// Where a piece of a string that was cut stands in it.
pub proof fn lemma_place(s: Seq<u8>, sep: u8, k: int) -> (r: (int, int))
    requires
        0 <= k < bytes::split(s, sep).len(),
    ensures
        between(s, sep, r.0, r.1),
        bytes::split(s, sep)[k] == s.subrange(r.0, r.1),
        r.1 == s.len() <==> k == bytes::split(s, sep).len() - 1,
    decreases s.len(),
{
    let pieces = bytes::split(s, sep);
    if s.len() == 0 {
        assert(pieces[k] =~= s.subrange(0, 0));
        (0, 0)
    } else {
        let t = s.drop_last();
        let before = bytes::split(t, sep);
        bytes::lemma_split_nonempty(t, sep);
        if s.last() == sep && k == before.len() {
            let n = s.len() as int;
            assert(pieces[k] =~= s.subrange(n, n));
            (n, n)
        } else {
            let (a, b) = lemma_place(t, sep, k);
            assert forall|i: int| a <= i < b implies #[trigger] s[i] != sep by {
                assert(t[i] != sep);
            }
            if a > 0 {
                assert(s[a - 1] == t[a - 1]);
            }
            if b < t.len() {
                assert(s[b] == t[b]);
            }
            if s.last() != sep && k == before.len() - 1 {
                let n = s.len() as int;
                assert(pieces[k] =~= s.subrange(a, n));
                (a, n)
            } else {
                assert(pieces[k] =~= s.subrange(a, b));
                (a, b)
            }
        }
    }
}

/// The piece that stands at a place.
pub proof fn lemma_piece(s: Seq<u8>, sep: u8, a: int, b: int) -> (k: int)
    requires
        between(s, sep, a, b),
    ensures
        0 <= k < bytes::split(s, sep).len(),
        bytes::split(s, sep)[k] == s.subrange(a, b),
        b == s.len() <==> k == bytes::split(s, sep).len() - 1,
    decreases s.len(),
{
    let pieces = bytes::split(s, sep);
    if s.len() == 0 {
        assert(pieces[0] =~= s.subrange(a, b));
        0
    } else {
        let t = s.drop_last();
        let n = s.len() as int;
        let before = bytes::split(t, sep);
        bytes::lemma_split_nonempty(t, sep);
        assert(s[n - 1] == s.last());
        if b < n {
            assert(between(t, sep, a, b)) by {
                assert forall|i: int| a <= i < b implies #[trigger] t[i] != sep by {
                    assert(s[i] != sep);
                }
            }
            let k = lemma_piece(t, sep, a, b);
            assert(pieces[k] =~= s.subrange(a, b));
            k
        } else if s.last() == sep {
            assert(pieces[before.len() as int] =~= s.subrange(a, b));
            before.len() as int
        } else {
            assert(between(t, sep, a, n - 1)) by {
                assert forall|i: int| a <= i < n - 1 implies #[trigger] t[i] != sep by {
                    assert(s[i] != sep);
                }
            }
            let k = lemma_piece(t, sep, a, n - 1);
            assert(pieces[k] =~= s.subrange(a, b));
            k
        }
    }
}

proof fn lemma_nonempty_contains(s: Seq<Seq<u8>>, item: Seq<u8>)
    ensures
        headers::nonempty(s).contains(item) <==> s.contains(item) && item.len() > 0,
    decreases s.len(),
{
    let kept = headers::nonempty(s);
    if s.len() > 0 {
        let t = s.drop_last();
        let before = headers::nonempty(t);
        lemma_nonempty_contains(t, item);
        if kept.contains(item) {
            let i = kept.index_of(item);
            if i < before.len() {
                assert(before[i] == item);
                let j = t.index_of(item);
                assert(s[j] == item);
            } else {
                assert(s[s.len() - 1] == item);
            }
        }
        if s.contains(item) && item.len() > 0 {
            let i = s.index_of(item);
            if i < t.len() {
                assert(t[i] == item);
                let j = before.index_of(item);
                assert(kept[j] == item);
            } else {
                assert(kept[kept.len() - 1] == item);
            }
        }
    }
}

proof fn lemma_lists(value: Seq<u8>, item: Seq<u8>)
    ensures
        headers::list_items(bytes::lowercase(value)).contains(item) <==> lists(value, item),
{
    let s = bytes::lowercase(value);
    let pieces = bytes::split(s, COMMA);
    let items = headers::list_items(s);
    if items.contains(item) {
        let k = items.index_of(item);
        let (a, b) = lemma_place(s, COMMA, k);
        assert(between(s, COMMA, a, b) && text::trim(s.subrange(a, b)) == item);
    }
    if lists(value, item) {
        let (a, b) = choose|a: int, b: int| #[trigger]
            between(s, COMMA, a, b) && text::trim(s.subrange(a, b)) == item;
        let k = lemma_piece(s, COMMA, a, b);
        assert(items[k] == item);
    }
}

/// What is found in the fields of a name is what some of them lists between its commas, and what
/// is not empty.
pub proof fn law_items(fields: Seq<Field>, name: Seq<u8>, item: Seq<u8>)
    ensures
        headers::comma_values(fields, name).contains(item) <==> item.len() > 0 && names(
            fields,
            name,
            item,
        ),
    decreases fields.len(),
{
    if fields.len() > 0 {
        let front = fields.drop_last();
        let last = fields.last();
        let all = headers::comma_values(fields, name);
        let before = headers::comma_values(front, name);
        let added = headers::nonempty(headers::list_items(bytes::lowercase(last.value)));
        law_items(front, name, item);
        lemma_lists(last.value, item);
        lemma_nonempty_contains(headers::list_items(bytes::lowercase(last.value)), item);
        assert(names(front, name, item) ==> names(fields, name, item)) by {
            if names(front, name, item) {
                let i = choose|i: int|
                    0 <= i < front.len() && (#[trigger] front[i]).name == name && lists(
                        front[i].value,
                        item,
                    );
                assert(fields[i] == front[i]);
            }
        }
        if all.contains(item) {
            let i = all.index_of(item);
            if i < before.len() {
                assert(before[i] == item);
            } else {
                assert(added[i - before.len()] == item);
                assert(fields[fields.len() - 1].name == name);
            }
        }
        if item.len() > 0 && names(fields, name, item) {
            let i = choose|i: int|
                0 <= i < fields.len() && (#[trigger] fields[i]).name == name && lists(
                    fields[i].value,
                    item,
                );
            if i < front.len() {
                assert(front[i] == fields[i]);
                let j = before.index_of(item);
                assert(all[j] == item);
            } else {
                let j = added.index_of(item);
                assert(all[before.len() + j] == item);
            }
        }
    }
}

/// Something is found in the fields of a name if some of them lists something.
pub proof fn law_some_items(fields: Seq<Field>, name: Seq<u8>)
    ensures
        headers::comma_values(fields, name).len() > 0 <==> exists|item: Seq<u8>|
            item.len() > 0 && #[trigger] names(fields, name, item),
{
    let all = headers::comma_values(fields, name);
    if all.len() > 0 {
        law_items(fields, name, all[0]);
        assert(all.contains(all[0]));
    }
    if exists|item: Seq<u8>| item.len() > 0 && #[trigger] names(fields, name, item) {
        let item = choose|item: Seq<u8>| item.len() > 0 && #[trigger] names(fields, name, item);
        law_items(fields, name, item);
    }
}

/// A field whose whole value is a word, in capitals or not, and with spaces and tabs around it or
/// not, lists this word.
pub proof fn law_a_word_is_listed(start: Seq<u8>, word: Seq<u8>, end: Seq<u8>)
    requires
        word.len() > 0,
        forall|i: int| 0 <= i < start.len() ==> #[trigger] start[i] == SP || start[i] == HTAB,
        forall|i: int| 0 <= i < end.len() ==> #[trigger] end[i] == SP || end[i] == HTAB,
        forall|i: int| 0 <= i < word.len() ==> 0x21 <= #[trigger] word[i] <= 0x7e && word[i] != COMMA,
    ensures
        lists(start + word + end, bytes::lowercase(word)),
{
    let value = start + word + end;
    let s = bytes::lowercase(value);
    let lower = bytes::lowercase(word);
    assert(s =~= start + lower + end);
    assert forall|i: int| 0 <= i < s.len() implies #[trigger] s[i] != COMMA by {
        if start.len() <= i < start.len() + word.len() {
            assert(word[i - start.len()] != COMMA);
        }
    }
    assert(between(s, COMMA, 0, s.len() as int));
    assert(s.subrange(0, s.len() as int) =~= start + lower + end);
    assert forall|i: int| 0 <= i < lower.len() implies 0x21 <= #[trigger] lower[i] < 128 by {
        assert(0x21 <= word[i] <= 0x7e);
    }
    law_trim(start, lower, end);
}

/// A word that is the whole value of a field, in capitals or not, is found in the fields of that
/// name; where there is no field of a name nothing is found.
pub proof fn law_words_are_found(fields: Seq<Field>, name: Seq<u8>, i: int)
    ensures
        0 <= i < fields.len() && fields[i].name == name && fields[i].value.len() > 0 && (forall|
            k: int,
        |
            0 <= k < fields[i].value.len() ==> 0x21 <= #[trigger] fields[i].value[k] <= 0x7e
                && fields[i].value[k] != COMMA) ==> headers::comma_values(fields, name).contains(
            bytes::lowercase(fields[i].value),
        ),
        !has_field(fields, name) ==> headers::comma_values(fields, name).len() == 0,
{
    let none = Seq::<u8>::empty();
    if 0 <= i < fields.len() && fields[i].name == name && fields[i].value.len() > 0 && (forall|
        k: int,
    |
        0 <= k < fields[i].value.len() ==> 0x21 <= #[trigger] fields[i].value[k] <= 0x7e
            && fields[i].value[k] != COMMA) {
        let word = fields[i].value;
        law_a_word_is_listed(none, word, none);
        assert(none + word + none =~= word);
        law_items(fields, name, bytes::lowercase(word));
    }
    law_some_items(fields, name);
}

proof fn lemma_trim_start(start: Seq<u8>, rest: Seq<u8>)
    requires
        forall|i: int| 0 <= i < start.len() ==> #[trigger] start[i] == SP || start[i] == HTAB,
        rest.len() > 0,
        0x21 <= rest[0] < 128,
    ensures
        text::trim_start(start + rest) == rest,
    decreases start.len(),
{
    let s = start + rest;
    text::lemma_ascii_scalar(s);
    if start.len() > 0 {
        let t = start.drop_first();
        assert forall|i: int| 0 <= i < t.len() implies #[trigger] t[i] == SP || t[i] == HTAB by {
            assert(t[i] == start[i + 1]);
        }
        assert(s[0] == start[0]);
        lemma_trim_start(t, rest);
        assert(s.drop_first() =~= t + rest);
    } else {
        assert(s =~= rest);
    }
}

proof fn lemma_text_len_padded(s: Seq<u8>, end: Seq<u8>)
    requires
        forall|i: int| 0 <= i < end.len() ==> #[trigger] end[i] == SP || end[i] == HTAB,
        forall|i: int| 0 <= i < s.len() ==> 0x20 <= #[trigger] s[i] < 128 || s[i] == HTAB,
        s.len() > 0 ==> 0x21 <= s.last() < 128,
    ensures
        text::text_len(s + end) == s.len(),
    decreases s.len() + end.len(),
{
    let whole = s + end;
    if whole.len() > 0 {
        text::lemma_ascii_scalar(whole);
        if s.len() > 0 {
            let t = s.drop_first();
            assert(whole[0] == s[0]);
            assert(whole.drop_first() =~= t + end);
            assert forall|i: int| 0 <= i < t.len() implies 0x20 <= #[trigger] t[i] < 128 || t[i]
                == HTAB by {
                assert(t[i] == s[i + 1]);
            }
            lemma_text_len_padded(t, end);
        } else {
            let t = end.drop_first();
            assert(whole[0] == end[0]);
            assert(whole.drop_first() =~= s + t);
            assert forall|i: int| 0 <= i < t.len() implies #[trigger] t[i] == SP || t[i]
                == HTAB by {
                assert(t[i] == end[i + 1]);
            }
            lemma_text_len_padded(s, t);
        }
    }
}

/// Spaces and tabs around a text are taken off, those inside it stay.
pub proof fn law_trim(start: Seq<u8>, s: Seq<u8>, end: Seq<u8>)
    requires
        forall|i: int| 0 <= i < start.len() ==> #[trigger] start[i] == SP || start[i] == HTAB,
        forall|i: int| 0 <= i < end.len() ==> #[trigger] end[i] == SP || end[i] == HTAB,
        forall|i: int| 0 <= i < s.len() ==> 0x20 <= #[trigger] s[i] < 128 || s[i] == HTAB,
        s.len() > 0,
        0x21 <= s[0] < 128,
        0x21 <= s.last() < 128,
    ensures
        text::trim(start + s + end) == s,
{
    assert(start + s + end =~= start + (s + end));
    lemma_trim_start(start, s + end);
    lemma_text_len_padded(s, end);
    assert((s + end).take(s.len() as int) =~= s);
}

/// White space is what Unicode calls so: twenty-five characters.
pub proof fn law_white_space(c: u32)
    ensures
        text::is_white_space(c) <==> seq![
            0x9u32, 0xa, 0xb, 0xc, 0xd, 0x20, 0x85, 0xa0, 0x1680, 0x2000, 0x2001, 0x2002, 0x2003,
            0x2004, 0x2005, 0x2006, 0x2007, 0x2008, 0x2009, 0x200a, 0x2028, 0x2029, 0x202f, 0x205f,
            0x3000,
        ].contains(c),
{
    let all = seq![
        0x9u32, 0xa, 0xb, 0xc, 0xd, 0x20, 0x85, 0xa0, 0x1680, 0x2000, 0x2001, 0x2002, 0x2003,
        0x2004, 0x2005, 0x2006, 0x2007, 0x2008, 0x2009, 0x200a, 0x2028, 0x2029, 0x202f, 0x205f,
        0x3000,
    ];
    if 0x9 <= c <= 0xd {
        assert(all[c - 0x9] == c);
    } else if 0x2000 <= c <= 0x200a {
        assert(all[c - 0x2000 + 9] == c);
    } else {
        assert(all[5] == 0x20 && all[6] == 0x85 && all[7] == 0xa0 && all[8] == 0x1680 && all[20]
            == 0x2028 && all[21] == 0x2029 && all[22] == 0x202f && all[23] == 0x205f && all[24]
            == 0x3000);
    }
    if all.contains(c) {
        let i = all.index_of(c);
        assert(0 <= i < 25 && all[i] == c);
    }
}

/// Letter case: a string and its form in lower case differ in capital letters only, which become
/// the small letters of the same place in the alphabet; nothing else changes.
pub proof fn law_lowercase(s: Seq<u8>, i: int)
    requires
        0 <= i < s.len(),
    ensures
        bytes::lowercase(s).len() == s.len(),
        0x41 <= s[i] <= 0x5a ==> bytes::lowercase(s)[i] - 0x61 == s[i] - 0x41,
        !(0x41 <= s[i] <= 0x5a) ==> bytes::lowercase(s)[i] == s[i],
        bytes::lowercase(bytes::lowercase(s)) == bytes::lowercase(s),
{
    assert(bytes::lowercase(bytes::lowercase(s)) =~= bytes::lowercase(s));
}

/// Whether `a` comes before `b`: at the first place where they differ `a` has the smaller byte,
/// or has ended.
pub open spec fn comes_before(a: Seq<u8>, b: Seq<u8>) -> bool {
    exists|k: int|
        0 <= k <= a.len() && k < b.len() && (k == a.len() || a[k] < b[k]) && #[trigger] a.take(k)
            == b.take(k)
}

/// Byte strings are compared by the first place where they differ.
pub proof fn law_order(a: Seq<u8>, b: Seq<u8>)
    ensures
        bytes::precedes(a, b) <==> comes_before(a, b),
    decreases a.len(),
{
    if b.len() > 0 && a.len() > 0 {
        let c = a.drop_first();
        let d = b.drop_first();
        law_order(c, d);
        if bytes::precedes(a, b) {
            if a[0] < b[0] {
                assert(a.take(0) =~= b.take(0));
            } else {
                let k = choose|k: int|
                    0 <= k <= c.len() && k < d.len() && (k == c.len() || c[k] < d[k])
                        && #[trigger] c.take(k) == d.take(k);
                assert(a.take(k + 1) =~= seq![a[0]] + c.take(k));
                assert(b.take(k + 1) =~= seq![b[0]] + d.take(k));
                assert(k < c.len() ==> a[k + 1] < b[k + 1]);
            }
        }
        if comes_before(a, b) {
            let k = choose|k: int|
                0 <= k <= a.len() && k < b.len() && (k == a.len() || a[k] < b[k])
                    && #[trigger] a.take(k) == b.take(k);
            if k > 0 {
                assert(a.take(k)[0] == b.take(k)[0]);
                assert(c.take(k - 1) =~= a.take(k).drop_first());
                assert(d.take(k - 1) =~= b.take(k).drop_first());
                assert(k < a.len() ==> c[k - 1] < d[k - 1]);
            }
        }
    } else if b.len() > 0 {
        assert(a.take(0) =~= b.take(0));
    }
}

/// The value of one digit, in a base of ten or sixteen: its place in the row of digits.
pub open spec fn stands_for(digit: u8, value: nat) -> bool {
    ||| 0x30 <= digit <= 0x39 && value == digit - 0x30
    ||| 0x41 <= digit <= 0x46 && value == digit - 0x41 + 10
    ||| 0x61 <= digit <= 0x66 && value == digit - 0x61 + 10
}

/// A digit behind a number multiplies it by the base and adds the value of the digit.
pub proof fn law_digits(s: Seq<u8>, digit: u8, value: nat, radix: nat)
    requires
        stands_for(digit, value),
    ensures
        bytes::digits_value(Seq::empty(), radix) == 0,
        bytes::digits_value(s.push(digit), radix) == bytes::digits_value(s, radix) * radix + value,
{
    assert(s.push(digit).drop_last() =~= s);
}

} // verus!
