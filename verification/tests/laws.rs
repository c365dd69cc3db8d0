use h11::headers::{get_comma_header, normalize_and_validate, set_comma_header};
use h11::readers::{ChunkedReader, ContentLengthReader, Http10Reader, Reader};
use h11::receivebuffer::ReceiveBuffer;
use h11::state::ConnectionState;
use h11::writers::{chunked_writer, content_length_writer, http10_writer, BodyWriter};
use h11::{
    Connection, ConnectionClosed, Data, EndOfMessage, Event, EventType, Headers, ProtocolError,
    Request, Response, Role, State, States, Switch,
};

type Pairs = Vec<(Vec<u8>, Vec<u8>)>;

fn pairs(list: &[(&str, &str)]) -> Pairs {
    list.iter()
        .map(|(n, v)| (n.as_bytes().to_vec(), v.as_bytes().to_vec()))
        .collect()
}

fn fields(list: &[(&str, &str)]) -> Headers {
    Headers::from(pairs(list))
}

fn request(method: &str, list: &[(&str, &str)]) -> Event {
    Request::new(
        method.as_bytes().to_vec(),
        fields(list),
        b"/a".to_vec(),
        b"1.1".to_vec(),
    )
    .unwrap()
    .into()
}

fn response(status_code: u16, list: &[(&str, &str)]) -> Event {
    Response {
        status_code,
        headers: fields(list),
        http_version: b"1.1".to_vec(),
        reason: b"Fine".to_vec(),
    }
    .into()
}

fn data(bytes: &[u8]) -> Event {
    Data {
        data: bytes.to_vec(),
        chunk_start: false,
        chunk_end: false,
    }
    .into()
}

fn end() -> Event {
    EndOfMessage::default().into()
}

fn closed() -> Event {
    ConnectionClosed::default().into()
}

fn both(client: State, server: State) -> States {
    States { client, server }
}

/// A server that has received a request and its end.
fn asked(head: &[u8]) -> Connection {
    let mut c = Connection::new(Role::Server, None);
    c.receive_data(head).unwrap();
    assert!(matches!(c.next_event(), Ok(Event::Request(_))));
    assert!(matches!(c.next_event(), Ok(Event::EndOfMessage(_))));
    c
}

#[test]
fn the_error_state_is_final() {
    let mut cs = ConnectionState::new();
    cs.process_error(Role::Client);
    assert_eq!(cs.states, both(State::Error, State::Idle));
    assert!(cs.process_event(Role::Client, EventType::Request, None).is_err());
    cs.process_keep_alive_disabled();
    cs.process_client_switch_proposal(Switch::SwitchUpgrade);
    assert!(cs.start_next_cycle().is_err());
    assert_eq!(cs.states.get(Role::Client), State::Error);
}

#[test]
fn refused_events_move_nothing() {
    let mut cs = ConnectionState::new();
    let before = cs;
    assert!(cs.process_event(Role::Client, EventType::Data, None).is_err());
    assert!(cs.process_event(Role::Server, EventType::InformationalResponse, None).is_err());
    assert_eq!(cs, before);
    // A request of the client after the server has responded unasked.
    cs.process_event(Role::Server, EventType::NormalResponse, None).unwrap();
    assert_eq!(cs.states, both(State::Idle, State::SendBody));
    let before = cs;
    assert!(matches!(
        cs.process_event(Role::Client, EventType::Request, None),
        Err(ProtocolError::LocalProtocolError(_))
    ));
    assert_eq!(cs, before);
    // A response that is not allowed leaves the proposals.
    cs.process_client_switch_proposal(Switch::SwitchConnect);
    let before = cs;
    assert!(cs.process_event(Role::Server, EventType::NormalResponse, None).is_err());
    assert_eq!(cs, before);
    assert!(cs.pending_switch_proposals.contains(&Switch::SwitchConnect));
}

#[test]
fn settled_states_fit_together() {
    // A client that is done waits while a switch is proposed.
    let mut cs = ConnectionState::new();
    cs.process_event(Role::Client, EventType::Request, None).unwrap();
    cs.process_client_switch_proposal(Switch::SwitchUpgrade);
    cs.process_event(Role::Client, EventType::EndOfMessage, None).unwrap();
    assert_eq!(cs.states, both(State::MightSwitchProtocol, State::SendResponse));
    // A side that is done must close where the connection is not kept alive.
    let mut cs = ConnectionState::new();
    cs.process_keep_alive_disabled();
    cs.process_event(Role::Client, EventType::Request, None).unwrap();
    cs.process_event(Role::Client, EventType::EndOfMessage, None).unwrap();
    assert_eq!(cs.states, both(State::MustClose, State::SendResponse));
    // A side whose peer has gone must close.
    let mut cs = ConnectionState::new();
    cs.process_event(Role::Client, EventType::ConnectionClosed, None).unwrap();
    assert_eq!(cs.states, both(State::Closed, State::MustClose));
    let once = cs;
    cs.process_event(Role::Client, EventType::ConnectionClosed, None).unwrap();
    assert_eq!(cs, once);
}

#[test]
fn old_peers_are_not_kept_alive() {
    for (version, state) in [("1.0", State::MustClose), ("1.1", State::Done)] {
        let head = format!("GET / HTTP/{}\r\nHost: a\r\n\r\n", version);
        let mut c = asked(head.as_bytes());
        c.send(response(200, &[("Content-Length", "0")])).unwrap();
        c.send(end()).unwrap();
        assert_eq!(c.get_our_state(), state);
    }
}

#[test]
fn cycles_need_keep_alive() {
    let mut cs = ConnectionState::new();
    for (role, event) in [
        (Role::Client, EventType::Request),
        (Role::Client, EventType::EndOfMessage),
        (Role::Server, EventType::NormalResponse),
        (Role::Server, EventType::EndOfMessage),
    ] {
        cs.process_event(role, event, None).unwrap();
    }
    assert_eq!(cs.states, both(State::Done, State::Done));
    let mut again = cs;
    again.start_next_cycle().unwrap();
    assert_eq!(again, ConnectionState::new());
    cs.process_keep_alive_disabled();
    assert_eq!(cs.states, both(State::MustClose, State::MustClose));
    assert!(cs.start_next_cycle().is_err());
    assert!(!cs.keep_alive);
}

#[test]
fn proposed_switches_are_denied_or_accepted() {
    for (switch, event) in [
        (Switch::SwitchConnect, EventType::NormalResponse),
        (Switch::SwitchUpgrade, EventType::InformationalResponse),
    ] {
        let mut cs = ConnectionState::new();
        cs.process_event(Role::Client, EventType::Request, None).unwrap();
        cs.process_event(Role::Client, EventType::EndOfMessage, None).unwrap();
        cs.process_client_switch_proposal(switch);
        assert_eq!(
            cs.states,
            both(State::MightSwitchProtocol, State::SendResponse)
        );
        let mut denied = cs;
        denied
            .process_event(Role::Server, EventType::NormalResponse, None)
            .unwrap();
        assert_eq!(denied.states, both(State::Done, State::SendBody));
        cs.process_event(Role::Server, event, Some(switch)).unwrap();
        assert_eq!(
            cs.states,
            both(State::SwitchedProtocol, State::SwitchedProtocol)
        );
    }
}

#[test]
fn closing_twice_is_closing_once() {
    let mut cs = ConnectionState::new();
    cs.process_event(Role::Client, EventType::ConnectionClosed, None).unwrap();
    assert_eq!(cs.states, both(State::Closed, State::MustClose));
    let before = cs;
    cs.process_event(Role::Client, EventType::ConnectionClosed, None).unwrap();
    assert_eq!(cs, before);
    let mut c = Connection::new(Role::Client, None);
    assert_eq!(c.send(closed()).unwrap(), None);
    assert_eq!(c.send(closed()).unwrap(), None);
    c.receive_data(b"").unwrap();
    assert_eq!(c.next_event().unwrap(), closed());
    assert_eq!(c.next_event().unwrap(), closed());
}

#[test]
fn receiving_fails_for_good() {
    let mut c = Connection::new(Role::Server, None);
    c.receive_data(b"nonsense\r\n\r\n").unwrap();
    let first = c.next_event().unwrap_err();
    assert!(matches!(first, ProtocolError::RemoteProtocolError(_)));
    assert_eq!(c.get_their_state(), State::Error);
    c.receive_data(b"GET / HTTP/1.0\r\n\r\n").unwrap();
    for _ in 0..2 {
        match c.next_event().unwrap_err() {
            ProtocolError::RemoteProtocolError(e) => {
                assert_eq!(e.message, "Can't receive data when peer state is ERROR");
                assert_eq!(e.code, 400);
            }
            e => panic!("{:?}", e),
        }
    }
}

#[test]
fn sending_fails_for_good() {
    let mut c = Connection::new(Role::Client, None);
    c.send_failed();
    assert_eq!(c.get_our_state(), State::Error);
    c.send_failed();
    assert_eq!(c.get_our_state(), State::Error);
    match c.send(request("GET", &[("Host", "a")])).unwrap_err() {
        ProtocolError::LocalProtocolError(e) => {
            assert_eq!(e.message, "Can't send data when our state is ERROR");
            assert_eq!(e.code, 400);
        }
        e => panic!("{:?}", e),
    }
}

#[test]
fn refused_sends_are_final() {
    // A state that does not allow the event.
    let mut c = Connection::new(Role::Client, None);
    c.send(closed()).unwrap();
    assert!(matches!(c.send(end()), Err(ProtocolError::LocalProtocolError(_))));
    assert_eq!(c.get_our_state(), State::Error);
    assert_eq!(message(c.send(closed())), "Can't send data when our state is ERROR");
    // Headers that cannot be made ready.
    let mut c = asked(b"GET / HTTP/1.0\r\n\r\n");
    let unchecked = normalize_and_validate(pairs(&[("X", "y ")]), true).unwrap();
    let bad: Event = Response {
        status_code: 200,
        headers: unchecked,
        http_version: b"1.1".to_vec(),
        reason: b"".to_vec(),
    }
    .into();
    assert!(c.can_send(&bad));
    assert_eq!(message(c.send(bad)), "Illegal header value [121, 32]");
    assert_eq!(c.get_our_state(), State::Error);
    assert_eq!(
        message(c.send(response(200, &[]))),
        "Can't send data when our state is ERROR"
    );
    // The peer's errors leave our side alone.
    let mut c = Connection::new(Role::Server, None);
    c.receive_data(b"nonsense\r\n\r\n").unwrap();
    assert!(c.next_event().is_err());
    assert_eq!(c.get_our_state(), State::Idle);
    assert!(c.send(response(400, &[])).is_ok());
}

#[test]
fn head_gets_the_headers_of_get() {
    for list in [
        vec![],
        vec![("Content-Length", "7")],
        vec![("Transfer-Encoding", "chunked"), ("Connection", "x")],
    ] {
        for version in ["1.0", "1.1"] {
            let send = |method: &str| {
                let head = format!("{} / HTTP/{}\r\nHost: a\r\n\r\n", method, version);
                asked(head.as_bytes()).send(response(200, &list)).unwrap()
            };
            assert_eq!(send("HEAD"), send("GET"));
        }
    }
}

#[test]
fn incomplete_data_is_bounded() {
    let mut c = Connection::new(Role::Server, Some(10));
    c.receive_data(b"GET / HTTP").unwrap();
    assert_eq!(c.next_event().unwrap(), Event::NeedData());
    c.receive_data(b"/").unwrap();
    match c.next_event().unwrap_err() {
        ProtocolError::RemoteProtocolError(e) => {
            assert_eq!(e.message, "Receive buffer too long");
            assert_eq!(e.code, 431);
        }
        e => panic!("{:?}", e),
    }
    let mut c = Connection::new(Role::Server, None);
    c.receive_data(&vec![b'a'; 16384]).unwrap();
    assert_eq!(c.next_event().unwrap(), Event::NeedData());
    c.receive_data(b"a").unwrap();
    assert!(c.next_event().is_err());
}

#[test]
fn pauses_keep_the_data() {
    let mut c = asked(b"GET / HTTP/1.1\r\nHost: a\r\n\r\n");
    c.receive_data(b"GET /2 HTTP/1.1\r\nHost: b\r\n\r\n").unwrap();
    for _ in 0..2 {
        assert_eq!(c.next_event().unwrap(), Event::Paused());
    }
    c.receive_data(b"more").unwrap();
    assert_eq!(c.next_event().unwrap(), Event::Paused());
    c.send(response(204, &[])).unwrap();
    c.send(end()).unwrap();
    c.start_next_cycle().unwrap();
    match c.next_event().unwrap() {
        Event::Request(r) => assert_eq!(r.target, b"/2".to_vec()),
        e => panic!("{:?}", e),
    }
    assert_eq!(c.next_event().unwrap(), end());
    assert_eq!(c.get_trailing_data(), (b"more".to_vec(), false));
}

#[test]
fn head_is_framed_like_get() {
    for list in [
        vec![],
        vec![("Content-Length", "7")],
        vec![("Transfer-Encoding", "chunked")],
    ] {
        let mut get = asked(b"GET / HTTP/1.1\r\nHost: a\r\n\r\n");
        let mut head = asked(b"HEAD / HTTP/1.1\r\nHost: a\r\n\r\n");
        assert_eq!(
            get.send(response(200, &list)).unwrap(),
            head.send(response(200, &list)).unwrap()
        );
    }
}

#[test]
fn waiting_ends() {
    let ask = b"POST / HTTP/1.1\r\nHost: a\r\nContent-Length: 1\r\nExpect: 100-Continue\r\n\r\n";
    let mut c = Connection::new(Role::Server, None);
    c.receive_data(ask).unwrap();
    c.next_event().unwrap();
    assert!(c.get_they_are_waiting_for_100_continue());
    c.send(response(100, &[])).unwrap();
    assert!(!c.get_they_are_waiting_for_100_continue());
    let mut c = Connection::new(Role::Server, None);
    c.receive_data(ask).unwrap();
    c.next_event().unwrap();
    c.receive_data(b"1").unwrap();
    c.next_event().unwrap();
    assert!(!c.get_client_is_waiting_for_100_continue());
}

#[test]
fn announced_lengths_are_kept() {
    let mut w = content_length_writer(5);
    assert_eq!(w.call(data(b"123")).unwrap(), b"123".to_vec());
    let mut short = w;
    assert_eq!(message(short.call(end())), "Too little data for declared Content-Length");
    let mut long = w;
    assert_eq!(message(long.call(data(b"456"))), "Too much data for declared Content-Length");
    assert_eq!(message(long.call(data(b""))), "Too much data for declared Content-Length");
    assert_eq!(w.call(data(b"45")).unwrap(), b"45".to_vec());
    assert_eq!(w.call(end()).unwrap(), b"".to_vec());
    assert_eq!(
        message(w.call(
            EndOfMessage {
                headers: fields(&[("a", "b")])
            }
            .into()
        )),
        "Content-Length and trailers don't mix"
    );
}

fn message<T: std::fmt::Debug>(r: Result<T, ProtocolError>) -> String {
    match r.unwrap_err() {
        ProtocolError::LocalProtocolError(e) => {
            assert_eq!(e.code, 400);
            e.message
        }
        ProtocolError::RemoteProtocolError(e) => {
            assert_eq!(e.code, 400);
            e.message
        }
    }
}

#[test]
fn normalizing_is_idempotent() {
    let once = fields(&[
        ("Content-Length", "3, 3"),
        ("X", "y"),
        ("CONTENT-length", "3"),
        ("TRANSFER-encoding", "Chunked"),
    ]);
    let raw: Pairs = once
        .raw_items()
        .into_iter()
        .map(|(raw, _, value)| (raw.clone(), value.clone()))
        .collect();
    assert_eq!(raw, pairs(&[
        ("Content-Length", "3"),
        ("X", "y"),
        ("TRANSFER-encoding", "chunked"),
    ]));
    assert_eq!(normalize_and_validate(raw.clone(), false).unwrap(), once);
    assert_eq!(normalize_and_validate(raw, true).unwrap(), once);
}

#[test]
fn what_is_set_is_got() {
    let before = fields(&[("A", "1, 2"), ("Connection", "Keep-Alive"), ("a", "3")]);
    let after =
        set_comma_header(&before, b"a", vec![b"X, y".to_vec(), b"z".to_vec()]).unwrap();
    assert_eq!(after.iter(), pairs(&[("connection", "Keep-Alive"), ("a", "X, y"), ("a", "z")]));
    assert_eq!(
        get_comma_header(&after, b"A"),
        vec![b"x".to_vec(), b"y".to_vec(), b"z".to_vec()]
    );
    assert_eq!(
        get_comma_header(&after, b"connection"),
        get_comma_header(&before, b"connection")
    );
    assert_eq!(set_comma_header(&after, b"a", vec![]).unwrap().len(), 1);
}

#[test]
fn responses_are_framed_for_the_peer() {
    for list in [
        vec![],
        vec![("Transfer-Encoding", "chunked"), ("Content-Length", "9")],
    ] {
        let mut modern = asked(b"GET / HTTP/1.1\r\nHost: a\r\n\r\n");
        assert_eq!(
            modern.send(response(200, &list)).unwrap().unwrap(),
            b"HTTP/1.1 200 Fine\r\ntransfer-encoding: chunked\r\n\r\n".to_vec()
        );
        assert_eq!(
            modern.send(data(b"abc")).unwrap().unwrap(),
            b"3\r\nabc\r\n".to_vec()
        );
        let mut old = asked(b"GET / HTTP/1.0\r\n\r\n");
        assert_eq!(
            old.send(response(200, &list)).unwrap().unwrap(),
            b"HTTP/1.1 200 Fine\r\nconnection: close\r\n\r\n".to_vec()
        );
        assert_eq!(old.send(data(b"abc")).unwrap().unwrap(), b"abc".to_vec());
    }
    let mut c = asked(b"GET / HTTP/1.1\r\nHost: a\r\nConnection: close\r\n\r\n");
    assert_eq!(
        c.send(response(
            200,
            &[("Content-Length", "0"), ("Connection", "a, keep-alive, b, A")]
        ))
        .unwrap()
        .unwrap(),
        b"HTTP/1.1 200 Fine\r\ncontent-length: 0\r\nconnection: a\r\nconnection: b\r\n\
          connection: close\r\n\r\n"
            .to_vec()
    );
    assert_eq!(c.get_our_state(), State::SendBody);
    c.send(end()).unwrap();
    assert_eq!(c.get_our_state(), State::MustClose);
}

/// Reads on until nothing comes; the data in one piece, and the last event.
fn drain(reader: &mut impl Reader, buffer: &mut ReceiveBuffer) -> (Vec<u8>, Option<Event>) {
    let mut out = Vec::new();
    loop {
        match reader.call(buffer).unwrap() {
            Some(Event::Data(d)) => out.extend_from_slice(&d.data),
            Some(e) => return (out, Some(e)),
            None => return (out, None),
        }
    }
}

fn check_segments(make: &dyn Fn() -> Box<dyn FnMut(&[u8]) -> (Vec<u8>, Option<Event>)>, s: &[u8]) {
    let (whole, event) = make()(s);
    for i in 0..=s.len() {
        let mut step = make();
        let (mut got, mut last) = step(&s[..i]);
        if last.is_none() {
            let (more, end) = step(&s[i..]);
            got.extend_from_slice(&more);
            last = end;
        }
        assert_eq!(got, whole, "{}", i);
        assert_eq!(last, event, "{}", i);
    }
}

#[test]
fn bodies_can_come_in_pieces() {
    check_segments(
        &|| {
            let mut reader = ChunkedReader::new();
            let mut buffer = ReceiveBuffer::new();
            Box::new(move |s: &[u8]| {
                buffer.add(s);
                drain(&mut reader, &mut buffer)
            })
        },
        b"5;x\r\nhello\r\nA\r\n0123456789\r\n0\r\nT: v\r\n\r\nrest",
    );
    check_segments(
        &|| {
            let mut reader = ContentLengthReader::new(6);
            let mut buffer = ReceiveBuffer::new();
            Box::new(move |s: &[u8]| {
                buffer.add(s);
                drain(&mut reader, &mut buffer)
            })
        },
        b"123456rest",
    );
    check_segments(
        &|| {
            let mut reader = Http10Reader {};
            let mut buffer = ReceiveBuffer::new();
            Box::new(move |s: &[u8]| {
                buffer.add(s);
                drain(&mut reader, &mut buffer)
            })
        },
        b"anything at all",
    );
}

#[test]
fn heads_can_come_in_pieces() {
    let head = b"GET /x HTTP/1.1\r\nHost: a\r\nLong: one\r\n  two\r\n\r\n";
    for i in 1..head.len() {
        let mut c = Connection::new(Role::Server, None);
        c.receive_data(&head[..i]).unwrap();
        assert_eq!(c.next_event().unwrap(), Event::NeedData());
        c.receive_data(&head[i..]).unwrap();
        match c.next_event().unwrap() {
            Event::Request(r) => {
                assert_eq!(r.headers.iter(), pairs(&[("host", "a"), ("long", "one two")]))
            }
            e => panic!("{:?}", e),
        }
    }
    // A space in front: found in the whole line, refused while it is not whole.
    let mut c = Connection::new(Role::Server, None);
    c.receive_data(b" GET /x HTTP/1.0\r\n\r\n").unwrap();
    assert!(c.next_event().is_ok());
    let mut c = Connection::new(Role::Server, None);
    c.receive_data(b" GET /x").unwrap();
    assert_eq!(message(c.next_event()), "illegal request line");
}

#[test]
fn chunks_are_read_back() {
    for n in [1, 9, 10, 15, 16, 255, 256, 4095, 4096] {
        let body = vec![b'x'; n];
        let mut bytes = chunked_writer().call(data(&body)).unwrap();
        assert_eq!(bytes[..], [format!("{:x}\r\n", n).into_bytes(), body.clone(), b"\r\n".to_vec()].concat()[..]);
        bytes.extend_from_slice(
            &chunked_writer()
                .call(EndOfMessage { headers: fields(&[("A", "b")]) }.into())
                .unwrap(),
        );
        let mut buffer = ReceiveBuffer::from(bytes);
        let mut reader = ChunkedReader::new();
        assert_eq!(
            reader.call(&mut buffer).unwrap(),
            Some(Event::Data(Data { data: body, chunk_start: true, chunk_end: true }))
        );
        assert_eq!(buffer.bytes()[..2], b"\r\n"[..]);
        assert_eq!(
            reader.call(&mut buffer).unwrap(),
            Some(EndOfMessage { headers: fields(&[("A", "b")]) }.into())
        );
        assert_eq!(buffer.len(), 0);
    }
    assert_eq!(chunked_writer().call(data(b"")).unwrap(), b"".to_vec());
    assert_eq!(http10_writer().call(data(b"ab")).unwrap(), b"ab".to_vec());
}

fn deliver(from: &mut Connection, to: &mut Connection, event: Event) -> Event {
    assert!(from.can_send(&event));
    match from.send(event).unwrap() {
        Some(bytes) => {
            if !bytes.is_empty() {
                to.receive_data(&bytes).unwrap();
            }
        }
        None => to.receive_data(b"").unwrap(),
    }
    let got = to.try_next_event().unwrap().unwrap();
    assert_eq!(from.get_states(), to.get_states());
    assert_eq!(
        from.get_client_is_waiting_for_100_continue(),
        to.get_client_is_waiting_for_100_continue()
    );
    got
}

#[test]
fn peers_stay_in_step() {
    let mut client = Connection::new(Role::Client, None);
    let mut server = Connection::new(Role::Server, None);
    for _ in 0..2 {
        let sent = request(
            "POST",
            &[("Accept", "x"), ("Host", "h"), ("Transfer-Encoding", "chunked")],
        );
        let got = deliver(&mut client, &mut server, sent);
        assert_eq!(
            got,
            request(
                "POST",
                &[("Host", "h"), ("Accept", "x"), ("Transfer-Encoding", "chunked")]
            )
        );
        let got = deliver(&mut client, &mut server, data(b"123"));
        assert_eq!(
            got,
            Event::Data(Data { data: b"123".to_vec(), chunk_start: true, chunk_end: true })
        );
        assert_eq!(deliver(&mut server, &mut client, response(100, &[])), response(100, &[]));
        assert_eq!(deliver(&mut client, &mut server, end()), end());
        let answer = response(200, &[("Content-Length", "2")]);
        assert_eq!(deliver(&mut server, &mut client, answer.clone()), answer);
        assert_eq!(deliver(&mut server, &mut client, data(b"ab")), data(b"ab"));
        assert_eq!(deliver(&mut server, &mut client, end()), end());
        client.start_next_cycle().unwrap();
        server.start_next_cycle().unwrap();
        assert_eq!(client.get_states(), server.get_states());
    }
    assert_eq!(deliver(&mut client, &mut server, closed()), closed());
    assert_eq!(deliver(&mut server, &mut client, closed()), closed());
}

#[test]
fn closing_ends_the_body() {
    let mut client = Connection::new(Role::Client, None);
    client.send(request("GET", &[("Host", "h")])).unwrap();
    client.send(end()).unwrap();
    client.receive_data(b"HTTP/1.1 200 OK\r\n\r\nabc").unwrap();
    client.next_event().unwrap();
    assert_eq!(client.next_event().unwrap(), data(b"abc"));
    assert_eq!(client.next_event().unwrap(), Event::NeedData());
    client.receive_data(b"").unwrap();
    assert_eq!(client.next_event().unwrap(), end());
    assert_eq!(client.next_event().unwrap(), closed());
}

#[test]
fn what_makes_no_sense_is_left_alone() {
    for bad in [
        &b"HTTP/1.1 200\r\n\r\n"[..],
        &b"HTTP/1.1 099 x\r\n\r\n"[..],
        &b"HTTP/1.1 200 x\r\nContent-Length: 99999999999999999999999999\r\n\r\n"[..],
    ] {
        let mut client = Connection::new(Role::Client, None);
        client.send(request("GET", &[("Host", "h")])).unwrap();
        client.receive_data(bad).unwrap();
        let states = client.get_states();
        assert!(client.try_next_event().is_none());
        assert_eq!(client.get_states(), states);
        assert_eq!(client.get_trailing_data().0, bad.to_vec());
    }
    let client = Connection::new(Role::Client, None);
    assert!(!client.can_send(&data(b"x")));
    assert!(!client.can_send(&response(200, &[])));
    assert!(!client.can_send(&Event::NeedData()));
    assert!(client.can_send(&closed()));
    assert!(client.can_send(&request("GET", &[("Host", "h")])));
    let server = asked(b"GET / HTTP/1.1\r\nHost: a\r\n\r\n");
    assert!(server.can_send(&response(200, &[])));
    assert!(!server.can_send(&response(99, &[])));
}

#[test]
fn hosts_come_first_and_the_rest_keeps_its_order() {
    let mut client = Connection::new(Role::Client, None);
    assert_eq!(
        client
            .send(request("GET", &[("B", "1"), ("A", "2"), ("hOsT", "h"), ("C", "3")]))
            .unwrap()
            .unwrap(),
        b"GET /a HTTP/1.1\r\nhOsT: h\r\nB: 1\r\nA: 2\r\nC: 3\r\n\r\n".to_vec()
    );
}

#[test]
fn the_only_coding_is_chunked() {
    for list in [vec![], vec![("Transfer-Encoding", "CHUNKED")]] {
        let headers = fields(&list);
        assert_eq!(
            get_comma_header(&headers, b"Transfer-Encoding"),
            list.iter().map(|_| b"chunked".to_vec()).collect::<Vec<_>>()
        );
    }
    assert!(normalize_and_validate(pairs(&[("Transfer-Encoding", "chunked, chunked")]), false).is_err());
}

#[test]
fn items_can_be_set_again() {
    let before = fields(&[("Connection", "\u{e9}A , ,b\tc,, D")]);
    let items = get_comma_header(&before, b"connection");
    assert_eq!(
        items,
        vec!["\u{e9}a".as_bytes().to_vec(), b"b\tc".to_vec(), b"d".to_vec()]
    );
    let after = set_comma_header(&before, b"connection", items.clone()).unwrap();
    assert_eq!(get_comma_header(&after, b"connection"), items);
}
