//! The errors of the protocol, and the text of their messages.
use vstd::prelude::*;
use vstd::string::*;

use crate::bytes;
use crate::bytes::to_decimal;

verus! {

/// What an error says: whose fault it is, a message, and the status code that a server
/// could answer with.
#[verifier::ext_equal]
pub enum ErrorView {
    Local { message: Seq<char>, code: u16 },
    Remote { message: Seq<char>, code: u16 },
}

/// An error of ours: an event that may not be sent.
#[derive(Debug, PartialEq, Eq)]
pub struct LocalProtocolError {
    pub message: String,
    pub code: u16,
}

/// An error of the peer: data that breaks the protocol.
#[derive(Debug, PartialEq, Eq)]
pub struct RemoteProtocolError {
    pub message: String,
    pub code: u16,
}

/// A breach of the protocol, ours or the peer's.
#[derive(Debug, PartialEq, Eq)]
pub enum ProtocolError {
    LocalProtocolError(LocalProtocolError),
    RemoteProtocolError(RemoteProtocolError),
}

impl View for LocalProtocolError {
    type V = ErrorView;

    open spec fn view(&self) -> ErrorView {
        ErrorView::Local { message: self.message@, code: self.code }
    }
}

impl View for RemoteProtocolError {
    type V = ErrorView;

    open spec fn view(&self) -> ErrorView {
        ErrorView::Remote { message: self.message@, code: self.code }
    }
}

impl View for ProtocolError {
    type V = ErrorView;

    open spec fn view(&self) -> ErrorView {
        match self {
            ProtocolError::LocalProtocolError(e) => e@,
            ProtocolError::RemoteProtocolError(e) => e@,
        }
    }
}

impl From<(String, u16)> for LocalProtocolError {
    fn from(value: (String, u16)) -> (r: Self) {
        LocalProtocolError { message: value.0, code: value.1 }
    }
}

impl vstd::std_specs::convert::FromSpecImpl<(String, u16)> for LocalProtocolError {
    open spec fn obeys_from_spec() -> bool {
        true
    }

    open spec fn from_spec(value: (String, u16)) -> Self {
        LocalProtocolError { message: value.0, code: value.1 }
    }
}

impl<'a> From<(&'a str, u16)> for LocalProtocolError {
    fn from(value: (&'a str, u16)) -> (r: Self)
        ensures
            r@ == (ErrorView::Local { message: value.0@, code: value.1 }),
    {
        LocalProtocolError { message: value.0.to_owned(), code: value.1 }
    }
}

impl<'a> vstd::std_specs::convert::FromSpecImpl<(&'a str, u16)> for LocalProtocolError {
    open spec fn obeys_from_spec() -> bool {
        false
    }

    open spec fn from_spec(value: (&'a str, u16)) -> Self {
        arbitrary()
    }
}

impl From<String> for LocalProtocolError {
    fn from(value: String) -> (r: Self) {
        LocalProtocolError { message: value, code: 400 }
    }
}

impl vstd::std_specs::convert::FromSpecImpl<String> for LocalProtocolError {
    open spec fn obeys_from_spec() -> bool {
        true
    }

    open spec fn from_spec(value: String) -> Self {
        LocalProtocolError { message: value, code: 400 }
    }
}

impl<'a> From<&'a str> for LocalProtocolError {
    fn from(value: &'a str) -> (r: Self)
        ensures
            r@ == (ErrorView::Local { message: value@, code: 400 }),
    {
        LocalProtocolError { message: value.to_owned(), code: 400 }
    }
}

impl<'a> vstd::std_specs::convert::FromSpecImpl<&'a str> for LocalProtocolError {
    open spec fn obeys_from_spec() -> bool {
        false
    }

    open spec fn from_spec(value: &'a str) -> Self {
        arbitrary()
    }
}

impl LocalProtocolError {
    /// The same complaint, laid at the peer's door.
    pub fn _reraise_as_remote_protocol_error(self) -> (r: RemoteProtocolError)
        ensures
            r.message == self.message,
            r.code == self.code,
    {
        RemoteProtocolError { message: self.message, code: self.code }
    }
}

impl From<(String, u16)> for RemoteProtocolError {
    fn from(value: (String, u16)) -> (r: Self) {
        RemoteProtocolError { message: value.0, code: value.1 }
    }
}

impl vstd::std_specs::convert::FromSpecImpl<(String, u16)> for RemoteProtocolError {
    open spec fn obeys_from_spec() -> bool {
        true
    }

    open spec fn from_spec(value: (String, u16)) -> Self {
        RemoteProtocolError { message: value.0, code: value.1 }
    }
}

impl<'a> From<(&'a str, u16)> for RemoteProtocolError {
    fn from(value: (&'a str, u16)) -> (r: Self)
        ensures
            r@ == (ErrorView::Remote { message: value.0@, code: value.1 }),
    {
        RemoteProtocolError { message: value.0.to_owned(), code: value.1 }
    }
}

impl<'a> vstd::std_specs::convert::FromSpecImpl<(&'a str, u16)> for RemoteProtocolError {
    open spec fn obeys_from_spec() -> bool {
        false
    }

    open spec fn from_spec(value: (&'a str, u16)) -> Self {
        arbitrary()
    }
}

impl From<String> for RemoteProtocolError {
    fn from(value: String) -> (r: Self) {
        RemoteProtocolError { message: value, code: 400 }
    }
}

impl vstd::std_specs::convert::FromSpecImpl<String> for RemoteProtocolError {
    open spec fn obeys_from_spec() -> bool {
        true
    }

    open spec fn from_spec(value: String) -> Self {
        RemoteProtocolError { message: value, code: 400 }
    }
}

impl<'a> From<&'a str> for RemoteProtocolError {
    fn from(value: &'a str) -> (r: Self)
        ensures
            r@ == (ErrorView::Remote { message: value@, code: 400 }),
    {
        RemoteProtocolError { message: value.to_owned(), code: 400 }
    }
}

impl<'a> vstd::std_specs::convert::FromSpecImpl<&'a str> for RemoteProtocolError {
    open spec fn obeys_from_spec() -> bool {
        false
    }

    open spec fn from_spec(value: &'a str) -> Self {
        arbitrary()
    }
}

impl From<LocalProtocolError> for ProtocolError {
    fn from(value: LocalProtocolError) -> (r: Self) {
        ProtocolError::LocalProtocolError(value)
    }
}

impl vstd::std_specs::convert::FromSpecImpl<LocalProtocolError> for ProtocolError {
    open spec fn obeys_from_spec() -> bool {
        true
    }

    open spec fn from_spec(value: LocalProtocolError) -> Self {
        ProtocolError::LocalProtocolError(value)
    }
}

impl From<RemoteProtocolError> for ProtocolError {
    fn from(value: RemoteProtocolError) -> (r: Self) {
        ProtocolError::RemoteProtocolError(value)
    }
}

impl vstd::std_specs::convert::FromSpecImpl<RemoteProtocolError> for ProtocolError {
    open spec fn obeys_from_spec() -> bool {
        true
    }

    open spec fn from_spec(value: RemoteProtocolError) -> Self {
        ProtocolError::RemoteProtocolError(value)
    }
}

/// A complaint about what we were asked to do.
pub open spec fn local(message: Seq<char>) -> ErrorView {
    ErrorView::Local { message, code: 400 }
}

/// A complaint about the peer.
pub open spec fn remote(message: Seq<char>) -> ErrorView {
    ErrorView::Remote { message, code: 400 }
}

/// The same complaint, laid at the peer's door.
pub open spec fn reraised(e: ErrorView) -> ErrorView {
    match e {
        ErrorView::Local { message, code } => ErrorView::Remote { message, code },
        ErrorView::Remote { message, code } => e,
    }
}

/// Makes a local error from its message.
pub fn local_error(message: &str) -> (r: ProtocolError)
    ensures
        r@ == local(message@),
{
    ProtocolError::LocalProtocolError(LocalProtocolError { message: message.to_owned(), code: 400 })
}

/// Makes a local error from its message.
pub fn local_error_of(message: String) -> (r: ProtocolError)
    ensures
        r@ == local(message@),
{
    ProtocolError::LocalProtocolError(LocalProtocolError { message, code: 400 })
}

/// Makes a remote error from its message.
pub fn remote_error(message: &str) -> (r: ProtocolError)
    ensures
        r@ == remote(message@),
{
    ProtocolError::RemoteProtocolError(
        RemoteProtocolError { message: message.to_owned(), code: 400 },
    )
}

fn digit_text(d: u8) -> (r: &'static str)
    requires
        bytes::is_digit(d),
    ensures
        r@ == seq![d as char],
{
    proof {
        reveal_strlit("0");
        reveal_strlit("1");
        reveal_strlit("2");
        reveal_strlit("3");
        reveal_strlit("4");
        reveal_strlit("5");
        reveal_strlit("6");
        reveal_strlit("7");
        reveal_strlit("8");
        reveal_strlit("9");
    }
    let r = match d {
        48 => "0",
        49 => "1",
        50 => "2",
        51 => "3",
        52 => "4",
        53 => "5",
        54 => "6",
        55 => "7",
        56 => "8",
        _ => "9",
    };
    assert(r@ =~= seq![d as char]);
    r
}

proof fn lemma_decimal_digits(n: nat)
    ensures
        bytes::is_digits(bytes::decimal(n)),
    decreases n,
{
    if n >= 10 {
        lemma_decimal_digits(n / 10);
        assert forall|i: int| 0 <= i < bytes::decimal(n).len() implies bytes::is_digit(
            #[trigger] bytes::decimal(n)[i],
        ) by {
            if i < bytes::decimal(n / 10).len() {
                assert(bytes::decimal(n)[i] == bytes::decimal(n / 10)[i]);
            }
        }
    }
}

/// Appends a number in decimal digits to a text.
pub fn append_decimal(text: &mut String, n: usize)
    ensures
        final(text)@ == old(text)@ + bytes::decimal_text(n as nat),
{
    let digits: Vec<u8> = to_decimal(n);
    proof {
        lemma_decimal_digits(n as nat);
    }
    let mut i: usize = 0;
    assert(text@ =~= old(text)@ + digits@.take(0).map_values(|b: u8| b as char));
    while i < digits.len()
        invariant
            i <= digits.len(),
            bytes::is_digits(digits@),
            text@ == old(text)@ + digits@.take(i as int).map_values(|b: u8| b as char),
        decreases digits.len() - i,
    {
        assert(bytes::is_digit(digits@[i as int]));
        text.append(digit_text(digits[i]));
        i = i + 1;
        assert(text@ =~= old(text)@ + digits@.take(i as int).map_values(|b: u8| b as char));
    }
    assert(digits@.take(i as int) =~= digits@);
}

/// The bytes of `s` in decimal, with a comma and a space between them.
pub open spec fn listing(s: Seq<u8>) -> Seq<char>
    decreases s.len(),
{
    if s.len() == 0 {
        Seq::empty()
    } else if s.len() == 1 {
        bytes::decimal_text(s[0] as nat)
    } else {
        listing(s.drop_last()) + ", "@ + bytes::decimal_text(s.last() as nat)
    }
}

/// The way messages show a byte string: its bytes in decimal, in square brackets.
pub open spec fn shown(s: Seq<u8>) -> Seq<char> {
    "["@ + listing(s) + "]"@
}

/// Appends a byte string to a message.
pub fn append_shown(text: &mut String, s: &[u8])
    ensures
        final(text)@ == old(text)@ + shown(s@),
{
    text.append("[");
    let mut i: usize = 0;
    assert(text@ =~= old(text)@ + "["@ + listing(s@.take(0)));
    while i < s.len()
        invariant
            i <= s.len(),
            text@ == old(text)@ + "["@ + listing(s@.take(i as int)),
        decreases s.len() - i,
    {
        assert(s@.take(i + 1).drop_last() =~= s@.take(i as int));
        let ghost start = old(text)@ + "["@;
        if i > 0 {
            text.append(", ");
        } else {
            assert(text@ =~= start);
        }
        append_decimal(text, s[i] as usize);
        i = i + 1;
        assert(text@ =~= start + listing(s@.take(i as int)));
    }
    assert(s@.take(i as int) =~= s@);
    text.append("]");
    assert(text@ =~= old(text)@ + shown(s@));
}

/// Makes a local error whose message ends in a byte string.
pub fn local_error_about(message: &str, s: &[u8]) -> (r: ProtocolError)
    ensures
        r@ == local(message@ + shown(s@)),
{
    let mut text: String = message.to_owned();
    append_shown(&mut text, s);
    local_error_of(text)
}

} // verus!
