use h11::bytes::{parse_digits, to_decimal, to_hexadecimal};
use h11::framing::{_body_framing, Framing};
use h11::readers::{
    _obsolete_line_fold, ChunkedReader, ClosedReader, ContentLengthReader, Http10Reader,
    IdleClientReader, Reader, SendResponseServerReader,
};
use h11::receivebuffer::ReceiveBuffer;
use h11::state::ConnectionState;
use h11::text::trimmed;
use h11::writers::{http10_writer, write_request, write_response, BodyWriter};
use h11::{
    Connection, ConnectionClosed, Data, EndOfMessage, Event, EventType, Headers,
    LocalProtocolError, ProtocolError, RemoteProtocolError, Request, Response, Role, State, Switch,
};

fn fields(list: &[(&str, &str)]) -> Headers {
    Headers::from(
        list.iter()
            .map(|(n, v)| (n.as_bytes().to_vec(), v.as_bytes().to_vec()))
            .collect(),
    )
}

fn local<T: std::fmt::Debug>(r: Result<T, ProtocolError>) -> (String, u16) {
    match r.unwrap_err() {
        ProtocolError::LocalProtocolError(e) => (e.message, e.code),
        e => panic!("{:?}", e),
    }
}

fn remote<T: std::fmt::Debug>(r: Result<T, ProtocolError>) -> (String, u16) {
    match r.unwrap_err() {
        ProtocolError::RemoteProtocolError(e) => (e.message, e.code),
        e => panic!("{:?}", e),
    }
}

fn says(text: &str) -> (String, u16) {
    (text.to_string(), 400)
}

fn read(reader: &mut impl Reader, bytes: &[u8]) -> Result<Option<Event>, ProtocolError> {
    reader.call(&mut ReceiveBuffer::from(bytes.to_vec()))
}

fn make(method: &[u8], list: &[(&str, &str)], target: &[u8], version: &[u8]) -> Result<Request, ProtocolError> {
    Request::new(method.to_vec(), fields(list), target.to_vec(), version.to_vec())
}

#[test]
fn requests_name_their_host_once() {
    let host = [("Host", "a")];
    assert!(make(b"GET", &host, b"/", b"1.1").is_ok());
    assert!(make(b"GET", &[], b"/", b"1.0").is_ok());
    assert_eq!(
        local(make(b"GET", &[], b"/", b"1.1")),
        says("Missing mandatory Host: header")
    );
    for version in [b"1.0", b"1.1"] {
        assert_eq!(
            local(make(b"GET", &[("Host", "a"), ("hOST", "a")], b"/", version)),
            says("Found multiple Host: headers")
        );
    }
    assert_eq!(
        local(make(b"GET /", &host, b"/", b"1.1")),
        says("Illegal method characters")
    );
    assert_eq!(
        local(make(b"", &host, b"/", b"1.1")),
        says("Illegal method characters")
    );
    for target in [&b""[..], b"/ x", b"/\x7f", b"/\xc3\xa9"] {
        assert_eq!(
            local(make(b"GET", &host, target, b"1.1")),
            says("Illegal target characters")
        );
    }
}

#[test]
fn heads_that_cannot_be_read() {
    let mut idle = IdleClientReader {};
    let mut answer = SendResponseServerReader {};
    assert_eq!(read(&mut idle, b"").unwrap(), None);
    assert_eq!(read(&mut idle, b"GET / HTTP/1.1\r\n").unwrap(), None);
    assert_eq!(local(read(&mut idle, b"\x16\x03")), says("illegal request line"));
    assert_eq!(local(read(&mut answer, b"\x00")), says("illegal request line"));
    assert_eq!(local(read(&mut idle, b"\r\n")), says("no request line received"));
    assert_eq!(local(read(&mut idle, b"\n")), says("no request line received"));
    assert_eq!(local(read(&mut answer, b"\r\n")), says("no response line received"));
    assert_eq!(
        local(read(&mut idle, b"ab\r\n\r\n")),
        says("illegal request line [97, 98]")
    );
    assert_eq!(
        local(read(&mut answer, b"ab\r\n\r\n")),
        says("illegal response line [97, 98]")
    );
    assert_eq!(
        local(read(&mut idle, b"GET / HTTP/1.0\r\na\x07: b\r\n\r\n")),
        says("illegal header line [97, 7, 58, 32, 98]")
    );
    assert_eq!(
        local(read(&mut idle, b"GET / HTTP/1.0\r\n a: b\r\n\r\n")),
        says("continuation line at start of headers")
    );
    assert_eq!(
        local(read(&mut idle, b"GET / HTTP/1.1\r\n\r\n")),
        says("Missing mandatory Host: header")
    );
    assert_eq!(
        local(read(&mut answer, b"HTTP/1.1 200 OK\r\nContent-Length: x\r\n\r\n")),
        says("bad Content-Length")
    );
    assert_eq!(
        local(read(&mut answer, b"HTTP/1.1 200 OK\r\nTransfer-Encoding: gzip\r\n\r\n")),
        ("Only Transfer-Encoding: chunked is supported".to_string(), 501)
    );
}

#[test]
fn status_codes_tell_interim_responses() {
    let mut answer = SendResponseServerReader {};
    for (code, interim) in [(100, true), (199, true), (200, false), (99, false), (999, false)] {
        let head = format!("HTTP/1.1 {:03} Some reason \u{e9}\r\n\r\n", code);
        let response = Response {
            status_code: code,
            headers: Headers::default(),
            http_version: b"1.1".to_vec(),
            reason: "Some reason \u{e9}".as_bytes().to_vec(),
        };
        let expected = if interim {
            Event::InformationalResponse(response)
        } else {
            Event::NormalResponse(response)
        };
        assert_eq!(read(&mut answer, head.as_bytes()).unwrap(), Some(expected));
    }
}

#[test]
fn bodies_that_cannot_be_read() {
    assert_eq!(
        local(read(&mut ChunkedReader::new(), b"x\r\n")),
        says("illegal chunk header: [120, 13, 10]")
    );
    assert_eq!(
        local(read(&mut ChunkedReader::new(), b"11111111111111111\r\n")),
        says("illegal chunk size: [49, 49, 49, 49, 49, 49, 49, 49, 49, 49, 49, 49, 49, 49, 49, 49, 49]")
    );
    assert!(read(&mut ChunkedReader::new(), b"ffffffffffffffff\r\nx").is_ok());
    assert_eq!(
        remote(ChunkedReader::new().read_eof()),
        says("peer closed connection without sending complete message body (incomplete chunked read)")
    );
    let mut reader = ContentLengthReader::new(12);
    read(&mut reader, b"123").unwrap();
    assert_eq!(
        remote(reader.read_eof()),
        says("peer closed connection without sending complete message body (received 3 bytes, expected 12)")
    );
    assert_eq!(
        Http10Reader {}.read_eof().unwrap(),
        Event::EndOfMessage(EndOfMessage::default())
    );
    assert_eq!(local(read(&mut ClosedReader {}, b"x")), says("unexpected data"));
    assert_eq!(read(&mut ClosedReader {}, b"").unwrap(), None);
    for event in [
        ClosedReader {}.read_eof(),
        IdleClientReader {}.read_eof(),
        SendResponseServerReader {}.read_eof(),
    ] {
        assert_eq!(event.unwrap(), Event::ConnectionClosed(ConnectionClosed::default()));
    }
}

#[test]
fn only_the_current_version_is_written() {
    let mut request = make(b"GET", &[("X", "y"), ("Host", "a")], b"/", b"1.1").unwrap();
    assert_eq!(
        write_request(request.clone().into()).unwrap(),
        b"GET / HTTP/1.1\r\nHost: a\r\nX: y\r\n\r\n".to_vec()
    );
    request.http_version = b"1.0".to_vec();
    assert_eq!(local(write_request(request.into())), says("I only send HTTP/1.1"));
    let mut response = Response {
        status_code: 65535,
        headers: fields(&[("X", "y")]),
        http_version: b"1.1".to_vec(),
        reason: b"r".to_vec(),
    };
    assert_eq!(
        write_response(response.clone().into()).unwrap(),
        b"HTTP/1.1 65535 r\r\nX: y\r\n\r\n".to_vec()
    );
    response.http_version = b"1.0".to_vec();
    assert_eq!(local(write_response(response.into())), says("I only send HTTP/1.1"));
    let trailer = EndOfMessage {
        headers: fields(&[("X", "y")]),
    };
    assert_eq!(
        local(http10_writer().call(trailer.into())),
        says("can't send trailers to HTTP/1.0 client")
    );
}

#[test]
fn events_that_are_not_allowed() {
    let mut cs = ConnectionState::new();
    assert_eq!(
        local(cs.process_event(Role::Client, EventType::Data, None)),
        says("Can't handle event type Data when role=Client and state=Idle")
    );
    assert_eq!(
        local(cs.process_event(
            Role::Server,
            EventType::InformationalResponse,
            Some(Switch::SwitchUpgrade)
        )),
        says("Received server SwitchUpgrade event without a pending proposal")
    );
    cs.process_event(Role::Client, EventType::Request, None).unwrap();
    assert_eq!(
        local(cs.start_next_cycle()),
        says("Not in a reusable state. self.states={Client: SendBody, Server: SendResponse}")
    );
    let mut c = Connection::new(Role::Client, None);
    c.send(ConnectionClosed::default().into()).unwrap();
    assert_eq!(
        local(c.send(Data::default().into())),
        says("Can't handle event type Data when role=Client and state=Closed")
    );
    assert_eq!(
        local(c.start_next_cycle()),
        says("Not in a reusable state. self.states={Client: Error, Server: MustClose}")
    );
}

#[test]
fn peers_that_close_too_early() {
    let mut c = Connection::new(Role::Server, None);
    c.receive_data(b"GET").unwrap();
    c.receive_data(b"").unwrap();
    assert_eq!(
        remote(c.next_event()),
        says("peer unexpectedly closed connection")
    );
    assert_eq!(
        c.receive_data(b"x"),
        Err("received close, then received more data?".to_string())
    );
    assert_eq!(c.receive_data(b""), Ok(()));
    assert_eq!(c.get_trailing_data(), (b"GET".to_vec(), true));
}

#[test]
fn a_switch_that_was_not_proposed_is_an_error() {
    let mut c = Connection::new(Role::Server, None);
    c.receive_data(b"GET / HTTP/1.0\r\n\r\n").unwrap();
    c.next_event().unwrap();
    let answer = Response {
        status_code: 101,
        headers: Headers::default(),
        http_version: b"1.1".to_vec(),
        reason: b"".to_vec(),
    };
    assert_eq!(
        local(c.send(answer.into())),
        says("Received server SwitchUpgrade event without a pending proposal")
    );
    assert_eq!(c.get_our_state(), State::Error);
}

#[test]
fn a_write_that_fails_is_final() {
    let mut c = Connection::new(Role::Client, None);
    let mut request = make(b"GET", &[("Host", "a")], b"/", b"1.1").unwrap();
    request.http_version = b"2.0".to_vec();
    assert_eq!(local(c.send(request.into())), says("I only send HTTP/1.1"));
    assert_eq!(c.get_our_state(), State::Error);
}

#[test]
fn errors_are_made_from_text_and_code() {
    let text = "x".to_string();
    for e in [
        LocalProtocolError::from((text.clone(), 400)),
        LocalProtocolError::from(("x", 400)),
        LocalProtocolError::from(text.clone()),
        LocalProtocolError::from("x"),
    ] {
        assert_eq!((&e.message[..], e.code), ("x", 400));
        let again = e._reraise_as_remote_protocol_error();
        assert_eq!(again, RemoteProtocolError::from("x"));
        assert!(matches!(ProtocolError::from(again), ProtocolError::RemoteProtocolError(_)));
    }
    for e in [
        RemoteProtocolError::from((text.clone(), 431)),
        RemoteProtocolError::from(("x", 431)),
    ] {
        assert_eq!((&e.message[..], e.code), ("x", 431));
    }
    assert_eq!(RemoteProtocolError::from(text).code, 400);
}

#[test]
fn numbers_are_written_and_read() {
    assert_eq!(to_decimal(0), b"0".to_vec());
    assert_eq!(to_decimal(1090), b"1090".to_vec());
    assert_eq!(to_hexadecimal(0), b"0".to_vec());
    assert_eq!(to_hexadecimal(43981), b"abcd".to_vec());
    assert_eq!(to_hexadecimal(usize::MAX), format!("{:x}", usize::MAX).into_bytes());
    assert_eq!(parse_digits(b"0042", 10, 42), Some(42));
    assert_eq!(parse_digits(b"43", 10, 42), None);
    assert_eq!(parse_digits(b"fF", 16, 255), Some(255));
    assert_eq!(parse_digits(b"18446744073709551615", 10, usize::MAX), Some(usize::MAX));
    assert_eq!(parse_digits(b"18446744073709551616", 10, usize::MAX), None);
}

#[test]
fn text_is_trimmed_as_std_does_it() {
    for s in ["", " ", "a", " a b ", "\u{a0}x\u{3000}", "\t\u{85}y\u{2003}z\r\n", "\u{200b}w"] {
        assert_eq!(trimmed(s.as_bytes()), s.trim().as_bytes());
    }
}

#[test]
fn continued_lines_are_joined() {
    let lines: Vec<&[u8]> = vec![b"a: b", b" \t c", b"\td", b"e", b" "];
    assert_eq!(
        _obsolete_line_fold(lines).unwrap(),
        vec![b"a: b c d".to_vec(), b"e ".to_vec()]
    );
    assert_eq!(_obsolete_line_fold(vec![]).unwrap(), Vec::<Vec<u8>>::new());
}

#[test]
fn tunnels_have_no_body() {
    let response = |code| Response {
        status_code: code,
        headers: fields(&[("Content-Length", "00100")]),
        http_version: b"1.1".to_vec(),
        reason: b"".to_vec(),
    };
    assert_eq!(_body_framing(b"CONNECT", response(200).into()), Framing::ContentLength(0));
    assert_eq!(_body_framing(b"CONNECT", response(299).into()), Framing::ContentLength(0));
    assert_eq!(_body_framing(b"CONNECT", response(300).into()), Framing::ContentLength(100));
    assert_eq!(_body_framing(b"connect", response(200).into()), Framing::ContentLength(100));
}
