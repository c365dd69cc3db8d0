use h11::headers::{
    get_comma_header, has_expect_100_continue, normalize_and_validate, set_comma_header, Headers,
};
use h11::{ProtocolError, Request};

type Item = (Vec<u8>, Vec<u8>, Vec<u8>);

fn items(headers: &Headers) -> Vec<Item> {
    headers.raw_items().into_iter().cloned().collect()
}

#[test]
fn test_normalize_and_validate() {
    assert_eq!(
        items(&normalize_and_validate(vec![(b"foo".to_vec(), b"bar".to_vec())], false).unwrap()),
        vec![(b"foo".to_vec(), b"foo".to_vec(), b"bar".to_vec())]
    );

    // no leading/trailing whitespace in names
    assert_eq!(
        normalize_and_validate(vec![(b"foo ".to_vec(), b"bar".to_vec())], false)
            .expect_err("Expect ProtocolError::LocalProtocolError"),
        ProtocolError::LocalProtocolError(
            ("Illegal header name [102, 111, 111, 32]".to_string(), 400).into()
        )
    );
    assert_eq!(
        normalize_and_validate(vec![(b" foo".to_vec(), b"bar".to_vec())], false)
            .expect_err("Expect ProtocolError::LocalProtocolError"),
        ProtocolError::LocalProtocolError(
            ("Illegal header name [32, 102, 111, 111]".to_string(), 400).into()
        )
    );

    // no weird characters in names
    assert_eq!(
        normalize_and_validate(vec![(b"foo bar".to_vec(), b"baz".to_vec())], false)
            .expect_err("Expect ProtocolError::LocalProtocolError"),
        ProtocolError::LocalProtocolError(
            (
                "Illegal header name [102, 111, 111, 32, 98, 97, 114]".to_string(),
                400
            )
                .into()
        )
    );
    assert_eq!(
        normalize_and_validate(vec![(b"foo\x00bar".to_vec(), b"baz".to_vec())], false)
            .expect_err("Expect ProtocolError::LocalProtocolError"),
        ProtocolError::LocalProtocolError(
            (
                "Illegal header name [102, 111, 111, 0, 98, 97, 114]".to_string(),
                400
            )
                .into()
        )
    );
    // Not even 8-bit characters:
    assert_eq!(
        normalize_and_validate(vec![(b"foo\xffbar".to_vec(), b"baz".to_vec())], false)
            .expect_err("Expect ProtocolError::LocalProtocolError"),
        ProtocolError::LocalProtocolError(
            (
                "Illegal header name [102, 111, 111, 255, 98, 97, 114]".to_string(),
                400
            )
                .into()
        )
    );
    // And not even the control characters we allow in values:
    assert_eq!(
        normalize_and_validate(vec![(b"foo\x01bar".to_vec(), b"baz".to_vec())], false)
            .expect_err("Expect ProtocolError::LocalProtocolError"),
        ProtocolError::LocalProtocolError(
            (
                "Illegal header name [102, 111, 111, 1, 98, 97, 114]".to_string(),
                400
            )
                .into()
        )
    );

    // no return or NUL characters in values
    assert_eq!(
        normalize_and_validate(vec![(b"foo".to_vec(), b"bar\rbaz".to_vec())], false)
            .expect_err("Expect ProtocolError::LocalProtocolError"),
        ProtocolError::LocalProtocolError(
            (
                "Illegal header value [98, 97, 114, 13, 98, 97, 122]".to_string(),
                400
            )
                .into()
        )
    );
    assert_eq!(
        normalize_and_validate(vec![(b"foo".to_vec(), b"bar\nbaz".to_vec())], false)
            .expect_err("Expect ProtocolError::LocalProtocolError"),
        ProtocolError::LocalProtocolError(
            (
                "Illegal header value [98, 97, 114, 10, 98, 97, 122]".to_string(),
                400
            )
                .into()
        )
    );
    assert_eq!(
        normalize_and_validate(vec![(b"foo".to_vec(), b"bar\x00baz".to_vec())], false)
            .expect_err("Expect ProtocolError::LocalProtocolError"),
        ProtocolError::LocalProtocolError(
            (
                "Illegal header value [98, 97, 114, 0, 98, 97, 122]".to_string(),
                400
            )
                .into()
        )
    );
    // no leading/trailing whitespace
    assert_eq!(
        normalize_and_validate(vec![(b"foo".to_vec(), b"barbaz  ".to_vec())], false)
            .expect_err("Expect ProtocolError::LocalProtocolError"),
        ProtocolError::LocalProtocolError(
            (
                "Illegal header value [98, 97, 114, 98, 97, 122, 32, 32]".to_string(),
                400
            )
                .into()
        )
    );
    assert_eq!(
        normalize_and_validate(vec![(b"foo".to_vec(), b"  barbaz".to_vec())], false)
            .expect_err("Expect ProtocolError::LocalProtocolError"),
        ProtocolError::LocalProtocolError(
            (
                "Illegal header value [32, 32, 98, 97, 114, 98, 97, 122]".to_string(),
                400
            )
                .into()
        )
    );
    assert_eq!(
        normalize_and_validate(vec![(b"foo".to_vec(), b"barbaz\t".to_vec())], false)
            .expect_err("Expect ProtocolError::LocalProtocolError"),
        ProtocolError::LocalProtocolError(
            (
                "Illegal header value [98, 97, 114, 98, 97, 122, 9]".to_string(),
                400
            )
                .into()
        )
    );
    assert_eq!(
        normalize_and_validate(vec![(b"foo".to_vec(), b"\tbarbaz".to_vec())], false)
            .expect_err("Expect ProtocolError::LocalProtocolError"),
        ProtocolError::LocalProtocolError(
            (
                "Illegal header value [9, 98, 97, 114, 98, 97, 122]".to_string(),
                400
            )
                .into()
        )
    );

    // content-length
    assert_eq!(
        items(&normalize_and_validate(vec![(b"Content-Length".to_vec(), b"1".to_vec())], false)
            .unwrap()),
        vec![(
            b"Content-Length".to_vec(),
            b"content-length".to_vec(),
            b"1".to_vec()
        )]
    );
    assert_eq!(
        normalize_and_validate(vec![(b"Content-Length".to_vec(), b"asdf".to_vec())], false)
            .expect_err("Expect ProtocolError::LocalProtocolError"),
        ProtocolError::LocalProtocolError(("bad Content-Length".to_string(), 400).into())
    );
    assert_eq!(
        normalize_and_validate(vec![(b"Content-Length".to_vec(), b"1x".to_vec())], false)
            .expect_err("Expect ProtocolError::LocalProtocolError"),
        ProtocolError::LocalProtocolError(("bad Content-Length".to_string(), 400).into())
    );
    assert_eq!(
        normalize_and_validate(
            vec![
                (b"Content-Length".to_vec(), b"1".to_vec()),
                (b"Content-Length".to_vec(), b"2".to_vec())
            ],
            false
        )
        .expect_err("Expect ProtocolError::LocalProtocolError"),
        ProtocolError::LocalProtocolError(
            ("conflicting Content-Length headers".to_string(), 400).into()
        )
    );
    assert_eq!(
        items(&normalize_and_validate(
            vec![
                (b"Content-Length".to_vec(), b"0".to_vec()),
                (b"Content-Length".to_vec(), b"0".to_vec())
            ],
            false
        )
        .unwrap()),
        vec![(
            b"Content-Length".to_vec(),
            b"content-length".to_vec(),
            b"0".to_vec()
        )]
    );
    assert_eq!(
        items(&normalize_and_validate(vec![(b"Content-Length".to_vec(), b"0 , 0".to_vec())], false)
            .unwrap()),
        vec![(
            b"Content-Length".to_vec(),
            b"content-length".to_vec(),
            b"0".to_vec()
        )]
    );
    assert_eq!(
        normalize_and_validate(
            vec![
                (b"Content-Length".to_vec(), b"1".to_vec()),
                (b"Content-Length".to_vec(), b"1".to_vec()),
                (b"Content-Length".to_vec(), b"2".to_vec())
            ],
            false
        )
        .expect_err("Expect ProtocolError::LocalProtocolError"),
        ProtocolError::LocalProtocolError(
            ("conflicting Content-Length headers".to_string(), 400).into()
        )
    );
    assert_eq!(
        normalize_and_validate(
            vec![(b"Content-Length".to_vec(), b"1 , 1,2".to_vec())],
            false
        )
        .expect_err("Expect ProtocolError::LocalProtocolError"),
        ProtocolError::LocalProtocolError(
            ("conflicting Content-Length headers".to_string(), 400).into()
        )
    );

    // transfer-encoding
    assert_eq!(
        items(&normalize_and_validate(
            vec![(b"Transfer-Encoding".to_vec(), b"chunked".to_vec())],
            false
        )
        .unwrap()),
        vec![(
            b"Transfer-Encoding".to_vec(),
            b"transfer-encoding".to_vec(),
            b"chunked".to_vec()
        )]
    );
    assert_eq!(
        items(&normalize_and_validate(
            vec![(b"Transfer-Encoding".to_vec(), b"cHuNkEd".to_vec())],
            false
        )
        .unwrap()),
        vec![(
            b"Transfer-Encoding".to_vec(),
            b"transfer-encoding".to_vec(),
            b"chunked".to_vec()
        )]
    );
    assert_eq!(
        normalize_and_validate(
            vec![(b"Transfer-Encoding".to_vec(), b"gzip".to_vec())],
            false
        )
        .expect_err("Expect ProtocolError::LocalProtocolError"),
        ProtocolError::LocalProtocolError(
            (
                "Only Transfer-Encoding: chunked is supported".to_string(),
                501
            )
                .into()
        )
    );
    assert_eq!(
        normalize_and_validate(
            vec![
                (b"Transfer-Encoding".to_vec(), b"chunked".to_vec()),
                (b"Transfer-Encoding".to_vec(), b"gzip".to_vec())
            ],
            false
        )
        .expect_err("Expect ProtocolError::LocalProtocolError"),
        ProtocolError::LocalProtocolError(
            ("multiple Transfer-Encoding headers".to_string(), 501).into()
        )
    );
}

#[test]
fn test_get_set_comma_header() {
    let headers = normalize_and_validate(
        vec![
            (b"Connection".to_vec(), b"close".to_vec()),
            (b"whatever".to_vec(), b"something".to_vec()),
            (b"connectiON".to_vec(), b"fOo,, , BAR".to_vec()),
        ],
        false,
    )
    .unwrap();

    assert_eq!(
        get_comma_header(&headers, b"connection"),
        vec![b"close".to_vec(), b"foo".to_vec(), b"bar".to_vec()]
    );

    let headers =
        set_comma_header(&headers, b"newthing", vec![b"a".to_vec(), b"b".to_vec()]).unwrap();

    assert_eq!(
        items(&headers),
        vec![
            (
                b"connection".to_vec(),
                b"connection".to_vec(),
                b"close".to_vec()
            ),
            (
                b"whatever".to_vec(),
                b"whatever".to_vec(),
                b"something".to_vec()
            ),
            (
                b"connection".to_vec(),
                b"connection".to_vec(),
                b"fOo,, , BAR".to_vec()
            ),
            (b"newthing".to_vec(), b"newthing".to_vec(), b"a".to_vec()),
            (b"newthing".to_vec(), b"newthing".to_vec(), b"b".to_vec()),
        ]
    );

    let headers =
        set_comma_header(&headers, b"whatever", vec![b"different thing".to_vec()]).unwrap();

    assert_eq!(
        items(&headers),
        vec![
            (
                b"connection".to_vec(),
                b"connection".to_vec(),
                b"close".to_vec()
            ),
            (
                b"connection".to_vec(),
                b"connection".to_vec(),
                b"fOo,, , BAR".to_vec()
            ),
            (b"newthing".to_vec(), b"newthing".to_vec(), b"a".to_vec()),
            (b"newthing".to_vec(), b"newthing".to_vec(), b"b".to_vec()),
            (
                b"whatever".to_vec(),
                b"whatever".to_vec(),
                b"different thing".to_vec()
            ),
        ]
    );
}

#[test]
fn test_has_100_continue() {
    assert!(has_expect_100_continue(&Request {
        method: b"GET".to_vec(),
        target: b"/".to_vec(),
        headers: normalize_and_validate(
            vec![
                (b"Host".to_vec(), b"example.com".to_vec()),
                (b"Expect".to_vec(), b"100-continue".to_vec())
            ],
            false
        )
        .unwrap(),
        http_version: b"1.1".to_vec(),
    }));
    assert!(!has_expect_100_continue(&Request {
        method: b"GET".to_vec(),
        target: b"/".to_vec(),
        headers: normalize_and_validate(
            vec![(b"Host".to_vec(), b"example.com".to_vec())],
            false
        )
        .unwrap(),
        http_version: b"1.1".to_vec(),
    }));
    // Case insensitive
    assert!(has_expect_100_continue(&Request {
        method: b"GET".to_vec(),
        target: b"/".to_vec(),
        headers: normalize_and_validate(
            vec![
                (b"Host".to_vec(), b"example.com".to_vec()),
                (b"Expect".to_vec(), b"100-Continue".to_vec())
            ],
            false
        )
        .unwrap(),
        http_version: b"1.1".to_vec(),
    }));
    // Doesn't work in HTTP/1.0
    assert!(!has_expect_100_continue(&Request {
        method: b"GET".to_vec(),
        target: b"/".to_vec(),
        headers: normalize_and_validate(
            vec![
                (b"Host".to_vec(), b"example.com".to_vec()),
                (b"Expect".to_vec(), b"100-continue".to_vec())
            ],
            false
        )
        .unwrap(),
        http_version: b"1.0".to_vec(),
    }));
}
