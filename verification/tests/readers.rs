use h11::readers::{
    _obsolete_line_fold, ChunkedReader, ContentLengthReader, Http10Reader, Reader,
};
use h11::receivebuffer::ReceiveBuffer;
use h11::{Data, EndOfMessage, Event, Headers, ProtocolError};

#[test]
fn test_obsolete_line_fold_bytes() {
    assert_eq!(
        _obsolete_line_fold(vec![
            b"aaa".as_ref(),
            b"bbb".as_ref(),
            b"  ccc".as_ref(),
            b"ddd".as_ref()
        ])
        .unwrap(),
        vec![b"aaa".to_vec(), b"bbb ccc".to_vec(), b"ddd".to_vec()]
    );
}

fn normalize_data_events(in_events: Vec<Event>) -> Vec<Event> {
    let mut out_events = Vec::new();
    for in_event in in_events {
        let event = match in_event {
            Event::Data(data) => Event::Data(Data {
                data: data.data.clone(),
                chunk_start: false,
                chunk_end: false,
            }),
            _ => in_event.clone(),
        };
        if !out_events.is_empty() {
            if let Event::Data(data_event) = &event {
                if let Event::Data(last_data_event) = out_events.last().unwrap() {
                    let mut x = last_data_event.clone();
                    x.data.extend_from_slice(&data_event.data);
                    let l = out_events.len();
                    out_events[l - 1] = Event::Data(x);
                    continue;
                }
            }
        }
        out_events.push(event);
    }
    return out_events;
}

fn _run_reader(
    reader: &mut impl Reader,
    buf: &mut ReceiveBuffer,
    do_eof: bool,
) -> Result<Vec<Event>, ProtocolError> {
    let mut events = vec![];
    {
        loop {
            match reader.call(buf)? {
                Some(event) => {
                    events.push(event.clone());
                    if let Event::EndOfMessage(_) = event {
                        break;
                    }
                }
                None => break,
            }
        }
        if do_eof {
            assert!(buf.len() == 0);
            events.push(reader.read_eof().unwrap());
        }
    }
    return Ok(normalize_data_events(events));
}

fn t_body_reader(
    reader: impl Reader + Clone,
    data: &[u8],
    expected: Vec<Event>,
    do_eof: bool,
) -> Result<(), ProtocolError> {
    assert_eq!(
        _run_reader(
            &mut reader.clone(),
            &mut ReceiveBuffer::from(data.to_vec()),
            do_eof
        )?,
        expected
    );

    let mut buf = ReceiveBuffer::new();
    let mut events = vec![];
    let mut r1 = reader.clone();
    for i in 0..data.len() {
        events.append(&mut _run_reader(&mut r1, &mut buf, false)?);
        buf.add(&mut data[i..i + 1].to_vec());
    }
    events.append(&mut _run_reader(&mut r1, &mut buf, do_eof)?);
    assert_eq!(normalize_data_events(events.clone()), expected);

    if expected.iter().any(|event| match event {
        Event::EndOfMessage(_) => true,
        _ => false,
    }) && !do_eof
    {
        assert_eq!(
            _run_reader(
                &mut reader.clone(),
                &mut ReceiveBuffer::from(data.to_vec()),
                false
            )?,
            expected.clone()
        );
    }
    Ok(())
}

#[test]
fn test_content_length_reader() {
    t_body_reader(
        ContentLengthReader::new(0),
        b"",
        vec![EndOfMessage::default().into()],
        false,
    )
    .unwrap();

    t_body_reader(
        ContentLengthReader::new(10),
        b"0123456789",
        vec![
            Data {
                data: b"0123456789".to_vec(),
                chunk_start: false,
                chunk_end: false,
            }
            .into(),
            EndOfMessage::default().into(),
        ],
        false,
    )
    .unwrap();
}

#[test]
fn test_http10_reader() {
    t_body_reader(
        Http10Reader {},
        b"",
        vec![EndOfMessage::default().into()],
        true,
    )
    .unwrap();

    t_body_reader(
        Http10Reader {},
        b"asdf",
        vec![Data {
            data: b"asdf".to_vec(),
            chunk_start: false,
            chunk_end: false,
        }
        .into()],
        false,
    )
    .unwrap();

    t_body_reader(
        Http10Reader {},
        b"asdf",
        vec![
            Data {
                data: b"asdf".to_vec(),
                chunk_start: false,
                chunk_end: false,
            }
            .into(),
            EndOfMessage::default().into(),
        ],
        true,
    )
    .unwrap();
}

#[test]
fn test_chunked_reader() {
    t_body_reader(
        ChunkedReader::new(),
        b"0\r\n\r\n",
        vec![EndOfMessage::default().into()],
        false,
    )
    .unwrap();

    t_body_reader(
        ChunkedReader::new(),
        b"0\r\nSome: header\r\n\r\n",
        vec![EndOfMessage {
            headers: Headers::from(vec![(b"Some".to_vec(), b"header".to_vec())]),
        }
        .into()],
        false,
    )
    .unwrap();

    t_body_reader(
        ChunkedReader::new(),
        b"5\r\n01234\r\n10\r\n0123456789abcdef\r\n0\r\nSome: header\r\n\r\n",
        vec![
            Data {
                data: b"012340123456789abcdef".to_vec(),
                chunk_start: false,
                chunk_end: false,
            }
            .into(),
            EndOfMessage {
                headers: Headers::from(vec![(b"Some".to_vec(), b"header".to_vec())]),
            }
            .into(),
        ],
        false,
    )
    .unwrap();

    t_body_reader(
        ChunkedReader::new(),
        b"5\r\n01234\r\n10\r\n0123456789abcdef\r\n0\r\n\r\n",
        vec![
            Data {
                data: b"012340123456789abcdef".to_vec(),
                chunk_start: false,
                chunk_end: false,
            }
            .into(),
            EndOfMessage::default().into(),
        ],
        false,
    )
    .unwrap();

    // handles upper and lowercase hex
    t_body_reader(
        ChunkedReader::new(),
        &[
            b"aA\r\n".to_vec(),
            vec![120; 0xAA],
            b"\r\n".to_vec(),
            b"0\r\n\r\n".to_vec(),
        ]
        .concat(),
        vec![
            Data {
                data: vec![120; 0xAA],
                chunk_start: false,
                chunk_end: false,
            }
            .into(),
            EndOfMessage::default().into(),
        ],
        false,
    )
    .unwrap();

    // refuses arbitrarily long chunk integers
    assert!(t_body_reader(
        ChunkedReader::new(),
        &[vec![57; 100], b"\r\nxxx".to_vec()].concat(),
        vec![Data {
            data: b"xxx".to_vec(),
            chunk_start: false,
            chunk_end: false,
        }
        .into()],
        false,
    )
    .is_err());

    // refuses garbage in the chunk count
    assert!(t_body_reader(ChunkedReader::new(), b"10\x00\r\nxxx", vec![], false,).is_err());

    // handles (and discards) "chunk extensions"
    t_body_reader(
        ChunkedReader::new(),
        b"5; hello=there\r\nxxxxx\r\n0; random=\"junk\"; some=more; canbe=lonnnnngg\r\n\r\n",
        vec![
            Data {
                data: b"xxxxx".to_vec(),
                chunk_start: false,
                chunk_end: false,
            }
            .into(),
            EndOfMessage::default().into(),
        ],
        false,
    )
    .unwrap();

    t_body_reader(
        ChunkedReader::new(),
        b"5   	 \r\n01234\r\n0\r\n\r\n",
        vec![
            Data {
                data: b"01234".to_vec(),
                chunk_start: false,
                chunk_end: false,
            }
            .into(),
            EndOfMessage::default().into(),
        ],
        false,
    )
    .unwrap();
}
