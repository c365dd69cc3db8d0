# h11

HTTP/1.1 without I/O, verified with Verus. A `Connection` turns events into bytes to send and
received bytes into events, and keeps track of what each side may do next. What is done with the
bytes is up to the caller.

```rust
let mut client = h11::Connection::new(h11::Role::Client, None);
let request = h11::Request::new(
    b"GET".to_vec(),
    h11::Headers::from(vec![(b"Host".to_vec(), b"example.com".to_vec())]),
    b"/".to_vec(),
    b"1.1".to_vec(),
)?;
let bytes = client.send(request.into())?;
// send the bytes, and feed what comes back
client.receive_data(&answer)?;
let event = client.next_event()?;
```

`send` and `next_event` have preconditions. `can_send` tells whether an event meets that of `send`;
`try_next_event` tests that of `next_event` by itself.

## Layout

| Module          | What it holds                                                                |
|-----------------|------------------------------------------------------------------------------|
| `bytes`, `text` | byte strings, numbers in digits, UTF-8 and white space                       |
| `abnf`          | the grammar: tokens, header fields, request, status and chunk lines          |
| `util`          | errors and their messages                                                    |
| `receivebuffer` | the buffer of received bytes                                                 |
| `headers`       | checking and normalizing header fields, lists of values                      |
| `events`        | requests, responses, data, and the ends of messages and connections          |
| `state`         | the state machine of both sides                                              |
| `writers`       | from events to bytes                                                         |
| `readers`       | from bytes to events                                                         |
| `framing`       | how the body after a head is framed, and whether the connection is kept      |
| `shown`         | header fields and requests as text for people                                |
| `connection`    | all of it together                                                           |
| `laws`          | what the states and connections keep, and whose fault an error is            |
| `header_laws`   | what replacing header values does, and how responses are framed              |
| `roundtrip`     | what is written can be read                                                  |
| `segments`      | how received bytes are cut into pieces makes no difference                   |
| `success`       | when sending succeeds, and what received data has to be like                 |
| `peers`         | the two ends of a connection stay in step                                    |

`app/` holds the Python bindings.

Nothing is taken on trust but in `shown`, where std's `DebugStruct` and `String::from_utf8_lossy`
are called: what is claimed of them stands beside the calls.
