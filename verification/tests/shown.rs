use h11::headers::normalize_and_validate;
use h11::{Connection, Data, EndOfMessage, Event, Headers, Request, Response, Role};

fn fields(list: &[(&str, &str)]) -> Headers {
    let mut pairs = Vec::new();
    for (name, value) in list {
        pairs.push((name.as_bytes().to_vec(), value.as_bytes().to_vec()));
    }
    normalize_and_validate(pairs, false).unwrap()
}

#[test]
fn headers_are_shown_as_text() {
    let headers = fields(&[("Host", "example.com"), ("X-Quote", "a \"b\"")]);
    assert_eq!(
        format!("{:?}", headers),
        "Headers { Host: \"example.com\", X-Quote: \"a \\\"b\\\"\" }"
    );
    assert_eq!(
        format!("{:#?}", fields(&[("Host", "a")])),
        "Headers {\n    Host: \"a\",\n}"
    );
    assert_eq!(format!("{:?}", fields(&[])), "Headers");
    // A value that is not ASCII.
    assert_eq!(
        format!("{:?}", fields(&[("Name", "caf\u{e9}")])),
        "Headers { Name: \"caf\u{e9}\" }"
    );
}

#[test]
fn requests_are_shown_as_text() {
    let request = Request::new(
        b"GET".to_vec(),
        fields(&[("Host", "a")]),
        b"/x".to_vec(),
        b"1.1".to_vec(),
    )
    .unwrap();
    assert_eq!(
        format!("{:?}", request),
        "Request { method: \"GET\", headers: Headers { Host: \"a\" }, target: \"/x\", \
         http_version: \"1.1\" }"
    );
    // Bytes that are not UTF-8 are replaced.
    let request = Request {
        method: vec![b'G', 0xff],
        headers: fields(&[]),
        target: b"/".to_vec(),
        http_version: b"1.0".to_vec(),
    };
    assert_eq!(
        format!("{:?}", request),
        "Request { method: \"G\u{fffd}\", headers: Headers, target: \"/\", http_version: \"1.0\" }"
    );
}

#[test]
fn events_show_their_headers() {
    let response = Response {
        headers: fields(&[("A", "b")]),
        http_version: b"1".to_vec(),
        reason: b"".to_vec(),
        status_code: 200,
    };
    assert_eq!(
        format!("{:?}", Event::NormalResponse(response)),
        "NormalResponse(Response { headers: Headers { A: \"b\" }, http_version: [49], \
         reason: [], status_code: 200 })"
    );
    let end: Event = EndOfMessage { headers: fields(&[("A", "b")]) }.into();
    assert_eq!(
        format!("{:?}", end),
        "EndOfMessage(EndOfMessage { headers: Headers { A: \"b\" } })"
    );
    let data: Event = Data { data: vec![1], chunk_start: false, chunk_end: true }.into();
    assert_eq!(
        format!("{:?}", data),
        "Data(Data { data: [1], chunk_start: false, chunk_end: true })"
    );
}

#[test]
fn roles_and_version_can_be_asked_for() {
    let mut c = Connection::new(Role::Server, None);
    assert_eq!(c.get_our_role(), Role::Server);
    assert_eq!(c.get_their_role(), Role::Client);
    assert_eq!(c.get_their_http_version(), None);
    c.receive_data(b"GET / HTTP/1.0\r\n\r\n").unwrap();
    c.next_event().unwrap();
    assert_eq!(c.get_their_http_version(), Some(b"1.0".to_vec()));
    assert_eq!(c.get_their_http_version(), c.their_http_version);
    assert_eq!(Connection::new(Role::Client, None).get_their_role(), Role::Server);
}
