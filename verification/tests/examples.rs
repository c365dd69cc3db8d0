use h11::{
    Connection, ConnectionClosed, Data, EndOfMessage, Event, EventType, Headers, ProtocolError,
    Request, Response, Role, State, States,
};
use std::collections::HashMap;

fn states(pairs: [(Role, State); 2]) -> States {
    let mut states = States {
        client: State::Idle,
        server: State::Idle,
    };
    for (role, state) in pairs {
        states.set(role, state);
    }
    states
}

fn get_all_events(conn: &mut Connection) -> Result<Vec<Event>, ProtocolError> {
    let mut got_events = Vec::new();
    loop {
        let event = conn.next_event()?;
        let event_type = EventType::from(&event);
        if event_type == EventType::NeedData || event_type == EventType::Paused {
            break;
        }
        got_events.push(event);
        if event_type == EventType::ConnectionClosed {
            break;
        }
    }
    return Ok(got_events);
}

fn receive_and_get(
    conn: &mut Connection,
    data: &[u8],
) -> Result<Vec<Event>, ProtocolError> {
    conn.receive_data(data).unwrap();
    return get_all_events(conn);
}

struct ConnectionPair {
    conn: HashMap<Role, Connection>,
    other: HashMap<Role, Role>,
}

impl ConnectionPair {
    fn new() -> Self {
        Self {
            conn: HashMap::from([
                (Role::Client, Connection::new(Role::Client, None)),
                (Role::Server, Connection::new(Role::Server, None)),
            ]),
            other: HashMap::from([(Role::Client, Role::Server), (Role::Server, Role::Client)]),
        }
    }

    fn send(
        &mut self,
        role: Role,
        send_events: Vec<Event>,
        expect: Option<Vec<Event>>,
    ) -> Result<Vec<u8>, ProtocolError> {
        let mut data = Vec::new();
        let mut closed = false;
        for send_event in &send_events {
            match self.conn.get_mut(&role).unwrap().send(send_event.clone())? {
                Some(new_data) => data.extend(new_data),
                None => closed = true,
            }
        }
        if !data.is_empty() {
            self.conn
                .get_mut(&self.other[&role])
                .unwrap()
                .receive_data(&data)
                .unwrap();
        }
        if closed {
            self.conn
                .get_mut(&self.other[&role])
                .unwrap()
                .receive_data(b"")
                .unwrap();
        }
        let got_events = get_all_events(self.conn.get_mut(&self.other[&role]).unwrap())?;
        match expect {
            Some(expect) => assert_eq!(got_events, expect),
            None => assert_eq!(got_events, send_events),
        };

        Ok(data)
    }
}

#[test]
fn examples_test_connection_basics_and_content_length() {
    let mut p = ConnectionPair::new();
    assert_eq!(
        p.send(
            Role::Client,
            vec![Request::new(
                b"GET".to_vec(),
                Headers::from(vec![
                    (b"Host".to_vec(), b"example.com".to_vec()),
                    (b"Content-Length".to_vec(), b"10".to_vec())
                ]),
                b"/".to_vec(),
                b"1.1".to_vec(),
            )
            .unwrap()
            .into(),],
            None,
        )
        .unwrap(),
        b"GET / HTTP/1.1\r\nHost: example.com\r\nContent-Length: 10\r\n\r\n".to_vec()
    );
    for (_, connection) in &p.conn {
        assert_eq!(
            connection.get_states(),
            states([
                (Role::Client, State::SendBody),
                (Role::Server, State::SendResponse),
            ])
        );
    }
    assert_eq!(p.conn[&Role::Client].get_our_state(), State::SendBody);
    assert_eq!(
        p.conn[&Role::Client].get_their_state(),
        State::SendResponse
    );
    assert_eq!(
        p.conn[&Role::Server].get_our_state(),
        State::SendResponse
    );
    assert_eq!(
        p.conn[&Role::Server].get_their_state(),
        State::SendBody
    );
    assert_eq!(p.conn[&Role::Client].their_http_version, None);
    assert_eq!(
        p.conn[&Role::Server].their_http_version,
        Some(b"1.1".to_vec())
    );

    assert_eq!(
        p.send(
            Role::Server,
            vec![Response {
                status_code: 100,
                headers: Headers::from(vec![]),
                http_version: b"1.1".to_vec(),
                reason: b"".to_vec(),
            }
            .into()],
            None
        )
        .unwrap(),
        b"HTTP/1.1 100 \r\n\r\n".to_vec()
    );

    assert_eq!(
        p.send(
            Role::Server,
            vec![Response {
                status_code: 200,
                headers: Headers::from(vec![(b"Content-Length".to_vec(), b"11".to_vec())]),
                http_version: b"1.1".to_vec(),
                reason: b"".to_vec(),
            }
            .into()],
            None
        )
        .unwrap(),
        b"HTTP/1.1 200 \r\nContent-Length: 11\r\n\r\n".to_vec()
    );

    for (_, connection) in &p.conn {
        assert_eq!(
            connection.get_states(),
            states([
                (Role::Client, State::SendBody),
                (Role::Server, State::SendBody),
            ])
        );
    }

    assert_eq!(
        p.conn[&Role::Client].their_http_version,
        Some(b"1.1".to_vec())
    );
    assert_eq!(
        p.conn[&Role::Server].their_http_version,
        Some(b"1.1".to_vec())
    );

    assert_eq!(
        p.send(
            Role::Client,
            vec![Data {
                data: b"12345".to_vec(),
                chunk_start: false,
                chunk_end: false,
            }
            .into()],
            None
        )
        .unwrap(),
        b"12345".to_vec()
    );

    assert_eq!(
        p.send(
            Role::Client,
            vec![Data {
                data: b"67890".to_vec(),
                chunk_start: false,
                chunk_end: false,
            }
            .into()],
            Some(vec![
                Data {
                    data: b"67890".to_vec(),
                    chunk_start: false,
                    chunk_end: false,
                }
                .into(),
                EndOfMessage::default().into(),
            ]),
        )
        .unwrap(),
        b"67890".to_vec()
    );

    assert_eq!(
        p.send(
            Role::Client,
            vec![EndOfMessage::default().into()],
            Some(vec![]),
        )
        .unwrap(),
        b"".to_vec()
    );

    for (_, connection) in &p.conn {
        assert_eq!(
            connection.get_states(),
            states([
                (Role::Client, State::Done),
                (Role::Server, State::SendBody),
            ])
        );
    }

    assert_eq!(
        p.send(
            Role::Server,
            vec![Data {
                data: b"1234567890".to_vec(),
                chunk_start: false,
                chunk_end: false,
            }
            .into()],
            None
        )
        .unwrap(),
        b"1234567890".to_vec()
    );

    assert_eq!(
        p.send(
            Role::Server,
            vec![Data {
                data: b"1".to_vec(),
                chunk_start: false,
                chunk_end: false,
            }
            .into()],
            Some(vec![
                Data {
                    data: b"1".to_vec(),
                    chunk_start: false,
                    chunk_end: false,
                }
                .into(),
                EndOfMessage::default().into(),
            ]),
        )
        .unwrap(),
        b"1".to_vec()
    );

    assert_eq!(
        p.send(
            Role::Server,
            vec![EndOfMessage::default().into()],
            Some(vec![]),
        )
        .unwrap(),
        b"".to_vec()
    );

    for (_, connection) in &p.conn {
        assert_eq!(
            connection.get_states(),
            states([
                (Role::Client, State::Done),
                (Role::Server, State::Done),
            ])
        );
    }
}

#[test]
fn examples_test_chunked() {
    let mut p = ConnectionPair::new();
    assert_eq!(
        p.send(
            Role::Client,
            vec![Request::new(
                b"GET".to_vec(),
                Headers::from(vec![
                    (b"Host".to_vec(), b"example.com".to_vec()),
                    (b"Transfer-Encoding".to_vec(), b"chunked".to_vec())
                ]),
                b"/".to_vec(),
                b"1.1".to_vec(),
            )
            .unwrap()
            .into(),],
            None,
        )
        .unwrap(),
        b"GET / HTTP/1.1\r\nHost: example.com\r\nTransfer-Encoding: chunked\r\n\r\n".to_vec()
    );
    assert_eq!(
        p.send(
            Role::Client,
            vec![Data {
                data: b"1234567890".to_vec(),
                chunk_start: true,
                chunk_end: true,
            }
            .into()],
            None,
        )
        .unwrap(),
        b"a\r\n1234567890\r\n".to_vec()
    );
    assert_eq!(
        p.send(
            Role::Client,
            vec![Data {
                data: b"abcde".to_vec(),
                chunk_start: true,
                chunk_end: true,
            }
            .into()],
            None,
        )
        .unwrap(),
        b"5\r\nabcde\r\n".to_vec()
    );
    assert_eq!(
        p.send(Role::Client, vec![Data::default().into()], Some(vec![]),)
            .unwrap(),
        b"".to_vec()
    );
    assert_eq!(
        p.send(
            Role::Client,
            vec![EndOfMessage {
                headers: Headers::from(vec![(b"hello".to_vec(), b"there".to_vec())]),
            }
            .into()],
            None,
        )
        .unwrap(),
        b"0\r\nhello: there\r\n\r\n".to_vec()
    );

    assert_eq!(
        p.send(
            Role::Server,
            vec![Response {
                status_code: 200,
                headers: Headers::from(vec![
                    (b"hello".to_vec(), b"there".to_vec()),
                    (b"transfer-encoding".to_vec(), b"chunked".to_vec()),
                ]),
                http_version: b"1.1".to_vec(),
                reason: b"".to_vec(),
            }
            .into()],
            None,
        )
        .unwrap(),
        b"HTTP/1.1 200 \r\nhello: there\r\ntransfer-encoding: chunked\r\n\r\n".to_vec()
    );
    assert_eq!(
        p.send(
            Role::Server,
            vec![Data {
                data: b"54321".to_vec(),
                chunk_start: true,
                chunk_end: true,
            }
            .into()],
            None,
        )
        .unwrap(),
        b"5\r\n54321\r\n".to_vec()
    );
    assert_eq!(
        p.send(
            Role::Server,
            vec![Data {
                data: b"12345".to_vec(),
                chunk_start: true,
                chunk_end: true,
            }
            .into()],
            None,
        )
        .unwrap(),
        b"5\r\n12345\r\n".to_vec()
    );
    assert_eq!(
        p.send(Role::Server, vec![EndOfMessage::default().into()], None,)
            .unwrap(),
        b"0\r\n\r\n".to_vec()
    );

    for (_, connection) in &p.conn {
        assert_eq!(
            connection.get_states(),
            states([
                (Role::Client, State::Done),
                (Role::Server, State::Done),
            ])
        );
    }
}

#[test]
fn examples_test_chunk_boundaries() {
    let mut conn = Connection::new(Role::Server, None);

    let request = b"POST / HTTP/1.1\r\nHost: example.com\r\nTransfer-Encoding: chunked\r\n\r\n";
    conn.receive_data(request);
    assert_eq!(
        conn.next_event().unwrap(),
        Event::Request(Request {
            method: b"POST".to_vec(),
            target: b"/".to_vec(),
            headers: Headers::from(vec![
                (b"Host".to_vec(), b"example.com".to_vec()),
                (b"Transfer-Encoding".to_vec(), b"chunked".to_vec())
            ]),
            http_version: b"1.1".to_vec(),
        })
    );
    assert_eq!(conn.next_event().unwrap(), Event::NeedData {});

    conn.receive_data(b"5\r\nhello\r\n");
    assert_eq!(
        conn.next_event().unwrap(),
        Event::Data(Data {
            data: b"hello".to_vec(),
            chunk_start: true,
            chunk_end: true,
        })
    );

    conn.receive_data(b"5\r\nhel");
    assert_eq!(
        conn.next_event().unwrap(),
        Event::Data(Data {
            data: b"hel".to_vec(),
            chunk_start: true,
            chunk_end: false,
        })
    );

    conn.receive_data(b"l");
    assert_eq!(
        conn.next_event().unwrap(),
        Event::Data(Data {
            data: b"l".to_vec(),
            chunk_start: false,
            chunk_end: false,
        })
    );

    conn.receive_data(b"o\r\n");
    assert_eq!(
        conn.next_event().unwrap(),
        Event::Data(Data {
            data: b"o".to_vec(),
            chunk_start: false,
            chunk_end: true,
        })
    );

    conn.receive_data(b"5\r\nhello");
    assert_eq!(
        conn.next_event().unwrap(),
        Event::Data(Data {
            data: b"hello".to_vec(),
            chunk_start: true,
            chunk_end: true,
        })
    );

    conn.receive_data(b"\r\n");
    assert_eq!(conn.next_event().unwrap(), Event::NeedData {});

    conn.receive_data(b"0\r\n\r\n");
    assert_eq!(
        conn.next_event().unwrap(),
        Event::EndOfMessage(EndOfMessage {
            headers: Headers::from(vec![]),
        })
    );
}

#[test]
fn examples_test_client_talking_to_http10_server() {
    let mut c = Connection::new(Role::Client, None);
    c.send(
        Request::new(
            b"GET".to_vec(),
            Headers::from(vec![(b"Host".to_vec(), b"example.com".to_vec())]),
            b"/".to_vec(),
            b"1.1".to_vec(),
        )
        .unwrap()
        .into(),
    )
    .unwrap();
    c.send(EndOfMessage::default().into()).unwrap();
    assert_eq!(c.get_our_state(), State::Done);
    assert_eq!(
        receive_and_get(&mut c, b"HTTP/1.0 200 OK\r\n\r\n").unwrap(),
        vec![Event::NormalResponse(Response {
            status_code: 200,
            headers: Headers::from(vec![]),
            http_version: b"1.0".to_vec(),
            reason: b"OK".to_vec(),
        })],
    );
    assert_eq!(c.get_our_state(), State::MustClose);
    assert_eq!(
        receive_and_get(&mut c, b"12345").unwrap(),
        vec![Event::Data(Data {
            data: b"12345".to_vec(),
            chunk_start: false,
            chunk_end: false,
        })],
    );
    assert_eq!(
        receive_and_get(&mut c, b"67890").unwrap(),
        vec![Event::Data(Data {
            data: b"67890".to_vec(),
            chunk_start: false,
            chunk_end: false,
        })],
    );
    assert_eq!(
        receive_and_get(&mut c, b"").unwrap(),
        vec![
            Event::EndOfMessage(EndOfMessage::default()),
            Event::ConnectionClosed(ConnectionClosed::default()),
        ],
    );
    assert_eq!(c.get_their_state(), State::Closed);
}

#[test]
fn examples_test_server_talking_to_http10_client() {
    let mut c = Connection::new(Role::Server, None);
    // No content-length, so no body
    // NB: no host header
    assert_eq!(
        receive_and_get(&mut c, b"GET / HTTP/1.0\r\n\r\n").unwrap(),
        vec![
            Event::Request(Request {
                method: b"GET".to_vec(),
                target: b"/".to_vec(),
                headers: Headers::from(vec![]),
                http_version: b"1.0".to_vec(),
            }),
            Event::EndOfMessage(EndOfMessage::default()),
        ],
    );
    assert_eq!(c.get_their_state(), State::MustClose);

    // We automatically Connection: close back at them
    assert_eq!(
        c.send(
            Response {
                status_code: 200,
                headers: Headers::from(vec![]),
                http_version: b"1.1".to_vec(),
                reason: b"".to_vec(),
            }
            .into()
        )
        .unwrap()
        .unwrap(),
        b"HTTP/1.1 200 \r\nconnection: close\r\n\r\n".to_vec()
    );

    assert_eq!(
        c.send(
            Data {
                data: b"12345".to_vec(),
                chunk_start: false,
                chunk_end: false,
            }
            .into()
        )
        .unwrap()
        .unwrap(),
        b"12345".to_vec()
    );
    assert_eq!(
        c.send(EndOfMessage::default().into()).unwrap().unwrap(),
        b"".to_vec()
    );
    assert_eq!(c.get_our_state(), State::MustClose);

    // Check that it works if they do send Content-Length
    let mut c = Connection::new(Role::Server, None);
    // NB: no host header
    assert_eq!(
        receive_and_get(&mut c, b"POST / HTTP/1.0\r\nContent-Length: 10\r\n\r\n1").unwrap(),
        vec![
            Event::Request(Request {
                method: b"POST".to_vec(),
                target: b"/".to_vec(),
                headers: Headers::from(vec![(b"Content-Length".to_vec(), b"10".to_vec())]),
                http_version: b"1.0".to_vec(),
            }),
            Event::Data(Data {
                data: b"1".to_vec(),
                chunk_start: false,
                chunk_end: false,
            }),
        ],
    );
    assert_eq!(
        receive_and_get(&mut c, b"234567890").unwrap(),
        vec![
            Event::Data(Data {
                data: b"234567890".to_vec(),
                chunk_start: false,
                chunk_end: false,
            }),
            Event::EndOfMessage(EndOfMessage::default()),
        ],
    );
    assert_eq!(c.get_their_state(), State::MustClose);
    assert_eq!(
        receive_and_get(&mut c, b"").unwrap(),
        vec![Event::ConnectionClosed(ConnectionClosed::default())],
    );
}

#[test]
fn examples_test_automatic_transfer_encoding_in_response() {
    // Check that in responses, the user can specify either Transfer-Encoding:
    // chunked or no framing at all, and in both cases we automatically select
    // the right option depending on whether the peer speaks HTTP/1.0 or
    // HTTP/1.1
    for user_headers in vec![
        vec![(b"Transfer-Encoding".to_vec(), b"chunked".to_vec())],
        vec![],
        // In fact, this even works if Content-Length is set,
        // because if both are set then Transfer-Encoding wins
        vec![
            (b"Transfer-Encoding".to_vec(), b"chunked".to_vec()),
            (b"Content-Length".to_vec(), b"100".to_vec()),
        ],
    ] {
        let mut p = ConnectionPair::new();
        p.send(
            Role::Client,
            vec![
                Request::new(
                    b"GET".to_vec(),
                    Headers::from(vec![(b"Host".to_vec(), b"example.com".to_vec())]),
                    b"/".to_vec(),
                    b"1.1".to_vec(),
                )
                .unwrap()
                .into(),
                EndOfMessage::default().into(),
            ],
            None,
        )
        .unwrap();
        // When speaking to HTTP/1.1 client, all of the above cases get
        // normalized to Transfer-Encoding: chunked
        p.send(
            Role::Server,
            vec![Response {
                status_code: 200,
                headers: Headers::from(user_headers.clone()),
                http_version: b"1.1".to_vec(),
                reason: b"".to_vec(),
            }
            .into()],
            Some(vec![Response {
                status_code: 200,
                headers: Headers::from(vec![(b"transfer-encoding".to_vec(), b"chunked".to_vec())]),
                http_version: b"1.1".to_vec(),
                reason: b"".to_vec(),
            }
            .into()]),
        )
        .unwrap();

        // When speaking to HTTP/1.0 client, all of the above cases get
        // normalized to no-framing-headers
        let mut c = Connection::new(Role::Server, None);
        receive_and_get(&mut c, b"GET / HTTP/1.0\r\n\r\n").unwrap();
        assert_eq!(
            c.send(
                Response {
                    status_code: 200,
                    headers: Headers::from(user_headers.clone()),
                    http_version: b"1.1".to_vec(),
                    reason: b"".to_vec(),
                }
                .into()
            )
            .unwrap()
            .unwrap(),
            b"HTTP/1.1 200 \r\nconnection: close\r\n\r\n".to_vec()
        );
        assert_eq!(
            c.send(
                Data {
                    data: b"12345".to_vec(),
                    chunk_start: false,
                    chunk_end: false,
                }
                .into()
            )
            .unwrap()
            .unwrap(),
            b"12345".to_vec()
        );
    }
}

#[test]
fn examples_test_automagic_connection_close_handling() {
    let mut p = ConnectionPair::new();
    // If the user explicitly sets Connection: close, then we notice and
    // respect it
    p.send(
        Role::Client,
        vec![
            Request::new(
                b"GET".to_vec(),
                Headers::from(vec![
                    (b"Host".to_vec(), b"example.com".to_vec()),
                    (b"Connection".to_vec(), b"close".to_vec()),
                ]),
                b"/".to_vec(),
                b"1.1".to_vec(),
            )
            .unwrap()
            .into(),
            EndOfMessage::default().into(),
        ],
        None,
    )
    .unwrap();
    for (_, connection) in &p.conn {
        assert_eq!(
            connection.get_states().get(Role::Client),
            State::MustClose
        );
    }
    // And if the client sets it, the server automatically echoes it back
    p.send(
        Role::Server,
        vec![
            Response {
                status_code: 204,
                headers: Headers::from(vec![]),
                http_version: b"1.1".to_vec(),
                reason: b"".to_vec(),
            }
            .into(),
            EndOfMessage::default().into(),
        ],
        Some(vec![
            Response {
                status_code: 204,
                headers: Headers::from(vec![(b"connection".to_vec(), b"close".to_vec())]),
                http_version: b"1.1".to_vec(),
                reason: b"".to_vec(),
            }
            .into(),
            EndOfMessage::default().into(),
        ]),
    )
    .unwrap();
    for (_, connection) in &p.conn {
        assert_eq!(
            connection.get_states(),
            states([
                (Role::Client, State::MustClose),
                (Role::Server, State::MustClose),
            ])
        );
    }
}

#[test]
fn examples_test_100_continue() {
    fn setup() -> ConnectionPair {
        let mut p = ConnectionPair::new();
        p.send(
            Role::Client,
            vec![Request::new(
                b"GET".to_vec(),
                Headers::from(vec![
                    (b"Host".to_vec(), b"example.com".to_vec()),
                    (b"Content-Length".to_vec(), b"100".to_vec()),
                    (b"Expect".to_vec(), b"100-continue".to_vec()),
                ]),
                b"/".to_vec(),
                b"1.1".to_vec(),
            )
            .unwrap()
            .into()],
            None,
        )
        .unwrap();
        for (_, connection) in &p.conn {
            assert!(connection.get_client_is_waiting_for_100_continue());
        }
        assert!(!p.conn[&Role::Client].get_they_are_waiting_for_100_continue());
        assert!(p.conn[&Role::Server].get_they_are_waiting_for_100_continue());
        p
    }

    // Disabled by 100 Continue
    let mut p = setup();
    p.send(
        Role::Server,
        vec![Response {
            status_code: 100,
            headers: Headers::from(vec![]),
            http_version: b"1.1".to_vec(),
            reason: b"".to_vec(),
        }
        .into()],
        None,
    )
    .unwrap();
    for (_, connection) in &p.conn {
        assert!(!connection.get_client_is_waiting_for_100_continue());
        assert!(!connection.get_they_are_waiting_for_100_continue());
    }

    // Disabled by a real response
    let mut p = setup();
    p.send(
        Role::Server,
        vec![Response {
            status_code: 200,
            headers: Headers::from(vec![(b"transfer-encoding".to_vec(), b"chunked".to_vec())]),
            http_version: b"1.1".to_vec(),
            reason: b"".to_vec(),
        }
        .into()],
        None,
    )
    .unwrap();
    for (_, connection) in &p.conn {
        assert!(!connection.get_client_is_waiting_for_100_continue());
        assert!(!connection.get_they_are_waiting_for_100_continue());
    }

    // Disabled by the client going ahead and sending stuff anyway
    let mut p = setup();
    p.send(
        Role::Client,
        vec![Data {
            data: b"12345".to_vec(),
            chunk_start: false,
            chunk_end: false,
        }
        .into()],
        None,
    )
    .unwrap();
    for (_, connection) in &p.conn {
        assert!(!connection.get_client_is_waiting_for_100_continue());
        assert!(!connection.get_they_are_waiting_for_100_continue());
    }

    // Disabled by the client going ahead and sending stuff anyway
    let mut p = setup();
    p.send(
        Role::Client,
        vec![Data {
            data: b"12345".to_vec(),
            chunk_start: false,
            chunk_end: false,
        }
        .into()],
        None,
    )
    .unwrap();
    for (_, connection) in &p.conn {
        assert!(!connection.get_client_is_waiting_for_100_continue());
        assert!(!connection.get_they_are_waiting_for_100_continue());
    }

    // Disabled by the client going ahead and sending stuff anyway
    let mut p = setup();
    p.send(
        Role::Client,
        vec![Data {
            data: b"12345".to_vec(),
            chunk_start: false,
            chunk_end: false,
        }
        .into()],
        None,
    )
    .unwrap();
    for (_, connection) in &p.conn {
        assert!(!connection.get_client_is_waiting_for_100_continue());
        assert!(!connection.get_they_are_waiting_for_100_continue());
    }
}

#[test]
fn examples_test_max_incomplete_event_size_countermeasure() {
    // Infinitely long headers are definitely not okay
    let mut c = Connection::new(Role::Server, Some(5000));
    c.receive_data(b"GET / HTTP/1.0\r\nEndless: ");
    assert_eq!(c.next_event().unwrap(), Event::NeedData {});

    // Checking that the same header is accepted / rejected depending on the
    // max_incomplete_event_size setting:
    let mut c = Connection::new(Role::Server, Some(5000));
    c.receive_data(b"GET / HTTP/1.0\r\nBig: ");
    c.receive_data(&vec![b'a'; 4000]);
    c.receive_data(b"\r\n\r\n");
    assert_eq!(
        get_all_events(&mut c).unwrap(),
        vec![
            Event::Request(Request {
                method: b"GET".to_vec(),
                target: b"/".to_vec(),
                headers: Headers::from(vec![(b"Big".to_vec(), vec![b'a'; 4000])]),
                http_version: b"1.0".to_vec(),
            }),
            Event::EndOfMessage(EndOfMessage::default()),
        ],
    );

    let mut c = Connection::new(Role::Server, Some(4000));
    c.receive_data(b"GET / HTTP/1.0\r\nBig: ");
    c.receive_data(&vec![b'a'; 4000]);
    assert!(match c.next_event().unwrap_err() {
        ProtocolError::RemoteProtocolError(_) => true,
        _ => false,
    });

    // Temporarily exceeding the size limit is fine, as long as its done with
    // complete events:
    let mut c = Connection::new(Role::Server, Some(5000));
    c.receive_data(b"GET / HTTP/1.0\r\nContent-Length: 10000");
    c.receive_data(b"\r\n\r\n");
    c.receive_data(&vec![b'a'; 10000]);
    assert_eq!(
        get_all_events(&mut c).unwrap(),
        vec![
            Event::Request(Request {
                method: b"GET".to_vec(),
                target: b"/".to_vec(),
                headers: Headers::from(vec![(b"Content-Length".to_vec(), b"10000".to_vec())]),
                http_version: b"1.0".to_vec(),
            }),
            Event::Data(Data {
                data: vec![b'a'; 10000],
                chunk_start: false,
                chunk_end: false,
            }),
            Event::EndOfMessage(EndOfMessage::default()),
        ],
    );

    let mut c = Connection::new(Role::Server, Some(100));
    // Two pipelined requests to create a way-too-big receive buffer... but
    // it's fine because we're not checking
    c.receive_data(
        b"GET /1 HTTP/1.1\r\nHost: a\r\n\r\n"
            .to_vec()
            .into_iter()
            .chain(b"GET /2 HTTP/1.1\r\nHost: b\r\n\r\n".to_vec().into_iter())
            .chain(vec![b'X'; 1000].into_iter())
            .collect::<Vec<u8>>()
            .as_slice(),
    );
    assert_eq!(
        get_all_events(&mut c).unwrap(),
        vec![
            Event::Request(Request {
                method: b"GET".to_vec(),
                target: b"/1".to_vec(),
                headers: Headers::from(vec![(b"Host".to_vec(), b"a".to_vec())]),
                http_version: b"1.1".to_vec(),
            }),
            Event::EndOfMessage(EndOfMessage::default()),
        ],
    );
    // Even more data comes in, still no problem
    c.receive_data(&vec![b'X'; 1000]);
    // We can respond and reuse to get the second pipelined request
    c.send(
        Response {
            status_code: 200,
            headers: Headers::from(vec![]),
            http_version: b"1.1".to_vec(),
            reason: b"".to_vec(),
        }
        .into(),
    )
    .unwrap();
    c.send(EndOfMessage::default().into()).unwrap();
    c.start_next_cycle().unwrap();
    assert_eq!(
        get_all_events(&mut c).unwrap(),
        vec![
            Event::Request(Request {
                method: b"GET".to_vec(),
                target: b"/2".to_vec(),
                headers: Headers::from(vec![(b"Host".to_vec(), b"b".to_vec())]),
                http_version: b"1.1".to_vec(),
            }),
            Event::EndOfMessage(EndOfMessage::default()),
        ],
    );
    // But once we unpause and try to read the next message, and find that it's
    // incomplete and the buffer is *still* way too large, then *that's* a
    // problem:
    c.send(
        Response {
            status_code: 200,
            headers: Headers::from(vec![]),
            http_version: b"1.1".to_vec(),
            reason: b"".to_vec(),
        }
        .into(),
    )
    .unwrap();
    c.send(EndOfMessage::default().into()).unwrap();
    c.start_next_cycle().unwrap();
    assert!(match c.next_event().unwrap_err() {
        ProtocolError::RemoteProtocolError(_) => true,
        _ => false,
    });

    // Check that we can still send data after this happens
    let mut c = Connection::new(Role::Server, Some(100));
    // Two pipelined requests to create a way-too-big receive buffer... but
    // it's fine because we're not checking
    c.receive_data(
        b"GET /1 HTTP/1.1\r\nHost: a\r\n\r\n"
            .to_vec()
            .into_iter()
            .chain(b"GET /2 HTTP/1.1\r\nHost: b\r\n\r\n".to_vec().into_iter())
            .chain(vec![b'X'; 1000].into_iter())
            .collect::<Vec<u8>>()
            .as_slice(),
    );
    assert_eq!(
        get_all_events(&mut c).unwrap(),
        vec![
            Event::Request(Request {
                method: b"GET".to_vec(),
                target: b"/1".to_vec(),
                headers: Headers::from(vec![(b"Host".to_vec(), b"a".to_vec())]),
                http_version: b"1.1".to_vec(),
            }),
            Event::EndOfMessage(EndOfMessage::default()),
        ],
    );
    // Even more data comes in, still no problem
    c.receive_data(&vec![b'X'; 1000]);
    // We can respond and reuse to get the second pipelined request
    c.send(
        Response {
            status_code: 200,
            headers: Headers::from(vec![]),
            http_version: b"1.1".to_vec(),
            reason: b"".to_vec(),
        }
        .into(),
    )
    .unwrap();
    c.send(EndOfMessage::default().into()).unwrap();
    c.start_next_cycle().unwrap();
    assert_eq!(
        get_all_events(&mut c).unwrap(),
        vec![
            Event::Request(Request {
                method: b"GET".to_vec(),
                target: b"/2".to_vec(),
                headers: Headers::from(vec![(b"Host".to_vec(), b"b".to_vec())]),
                http_version: b"1.1".to_vec(),
            }),
            Event::EndOfMessage(EndOfMessage::default()),
        ],
    );
    // But once we unpause and try to read the next message, and find that it's
    // incomplete and the buffer is *still* way too large, then *that's* a
    // problem:
    c.send(
        Response {
            status_code: 200,
            headers: Headers::from(vec![]),
            http_version: b"1.1".to_vec(),
            reason: b"".to_vec(),
        }
        .into(),
    )
    .unwrap();
    c.send(EndOfMessage::default().into()).unwrap();
    c.start_next_cycle().unwrap();
    assert!(match c.next_event().unwrap_err() {
        ProtocolError::RemoteProtocolError(_) => true,
        _ => false,
    });
}

#[test]
fn examples_test_reuse_simple() {
    let mut p = ConnectionPair::new();
    p.send(
        Role::Client,
        vec![
            Request::new(
                b"GET".to_vec(),
                Headers::from(vec![(b"Host".to_vec(), b"a".to_vec())]),
                b"/".to_vec(),
                b"1.1".to_vec(),
            )
            .unwrap()
            .into(),
            EndOfMessage::default().into(),
        ],
        None,
    )
    .unwrap();
    p.send(
        Role::Server,
        vec![
            Response {
                status_code: 200,
                headers: Headers::from(vec![(b"transfer-encoding".to_vec(), b"chunked".to_vec())]),
                http_version: b"1.1".to_vec(),
                reason: b"".to_vec(),
            }
            .into(),
            EndOfMessage::default().into(),
        ],
        None,
    )
    .unwrap();
    for (_, connection) in &mut p.conn {
        assert_eq!(
            connection.get_states(),
            states([
                (Role::Client, State::Done),
                (Role::Server, State::Done),
            ])
        );
        connection.start_next_cycle().unwrap();
    }

    p.send(
        Role::Client,
        vec![
            Request::new(
                b"DELETE".to_vec(),
                Headers::from(vec![(b"Host".to_vec(), b"a".to_vec())]),
                b"/foo".to_vec(),
                b"1.1".to_vec(),
            )
            .unwrap()
            .into(),
            EndOfMessage::default().into(),
        ],
        None,
    )
    .unwrap();
    p.send(
        Role::Server,
        vec![
            Response {
                status_code: 404,
                headers: Headers::from(vec![(b"transfer-encoding".to_vec(), b"chunked".to_vec())]),
                http_version: b"1.1".to_vec(),
                reason: b"".to_vec(),
            }
            .into(),
            EndOfMessage::default().into(),
        ],
        None,
    )
    .unwrap();
}

#[test]
fn examples_test_pipelining() {
    // Client doesn't support pipelining, so we have to do this by hand
    let mut c = Connection::new(Role::Server, None);
    assert_eq!(c.next_event().unwrap(), Event::NeedData {});

    // 3 requests all bunched up
    c.receive_data(
        &vec![
            b"GET /1 HTTP/1.1\r\nHost: a.com\r\nContent-Length: 5\r\n\r\n".to_vec(),
            b"12345".to_vec(),
            b"GET /2 HTTP/1.1\r\nHost: a.com\r\nContent-Length: 5\r\n\r\n".to_vec(),
            b"67890".to_vec(),
            b"GET /3 HTTP/1.1\r\nHost: a.com\r\n\r\n".to_vec(),
        ]
        .into_iter()
        .flatten()
        .collect::<Vec<u8>>(),
    );
    assert_eq!(
        get_all_events(&mut c).unwrap(),
        vec![
            Event::Request(Request {
                method: b"GET".to_vec(),
                target: b"/1".to_vec(),
                headers: Headers::from(vec![
                    (b"Host".to_vec(), b"a.com".to_vec()),
                    (b"Content-Length".to_vec(), b"5".to_vec())
                ]),
                http_version: b"1.1".to_vec(),
            }),
            Event::Data(Data {
                data: b"12345".to_vec(),
                chunk_start: false,
                chunk_end: false,
            }),
            Event::EndOfMessage(EndOfMessage::default()),
        ],
    );
    assert_eq!(c.get_their_state(), State::Done);
    assert_eq!(c.get_our_state(), State::SendResponse);

    assert_eq!(c.next_event().unwrap(), Event::Paused {});

    c.send(
        Response {
            status_code: 200,
            headers: Headers::from(vec![]),
            http_version: b"1.1".to_vec(),
            reason: b"".to_vec(),
        }
        .into(),
    )
    .unwrap();
    c.send(EndOfMessage::default().into()).unwrap();
    assert_eq!(c.get_their_state(), State::Done);
    assert_eq!(c.get_our_state(), State::Done);

    c.start_next_cycle().unwrap();

    assert_eq!(
        get_all_events(&mut c).unwrap(),
        vec![
            Event::Request(Request {
                method: b"GET".to_vec(),
                target: b"/2".to_vec(),
                headers: Headers::from(vec![
                    (b"Host".to_vec(), b"a.com".to_vec()),
                    (b"Content-Length".to_vec(), b"5".to_vec())
                ]),
                http_version: b"1.1".to_vec(),
            }),
            Event::Data(Data {
                data: b"67890".to_vec(),
                chunk_start: false,
                chunk_end: false,
            }),
            Event::EndOfMessage(EndOfMessage::default()),
        ],
    );
    assert_eq!(c.next_event().unwrap(), Event::Paused {});
    c.send(
        Response {
            status_code: 200,
            headers: Headers::from(vec![]),
            http_version: b"1.1".to_vec(),
            reason: b"".to_vec(),
        }
        .into(),
    )
    .unwrap();
    c.send(EndOfMessage::default().into()).unwrap();
    c.start_next_cycle().unwrap();

    assert_eq!(
        get_all_events(&mut c).unwrap(),
        vec![
            Event::Request(Request {
                method: b"GET".to_vec(),
                target: b"/3".to_vec(),
                headers: Headers::from(vec![(b"Host".to_vec(), b"a.com".to_vec())]),
                http_version: b"1.1".to_vec(),
            }),
            Event::EndOfMessage(EndOfMessage::default()),
        ],
    );
    // Doesn't pause this time, no trailing data
    assert_eq!(c.next_event().unwrap(), Event::NeedData {});
    c.send(
        Response {
            status_code: 200,
            headers: Headers::from(vec![]),
            http_version: b"1.1".to_vec(),
            reason: b"".to_vec(),
        }
        .into(),
    )
    .unwrap();
    c.send(EndOfMessage::default().into()).unwrap();

    // Arrival of more data triggers pause
    assert_eq!(c.next_event().unwrap(), Event::NeedData {});
    c.receive_data(b"SADF");
    assert_eq!(c.next_event().unwrap(), Event::Paused {});
    assert_eq!(c.get_trailing_data(), (b"SADF".to_vec(), false));
    // If EOF arrives while paused, we don't see that either:
    c.receive_data(b"");
    assert_eq!(c.get_trailing_data(), (b"SADF".to_vec(), true));
    assert_eq!(c.next_event().unwrap(), Event::Paused {});
    c.receive_data(b"");
    assert_eq!(c.next_event().unwrap(), Event::Paused {});
}
