//! HTTP/1.1 without I/O: a connection turns events into bytes to send, and received bytes into
//! events, and keeps track of what each side may do next.
pub mod abnf;
pub mod bytes;
pub mod connection;
pub mod cycle_laws;
pub mod events;
pub mod framing;
pub mod grammar_laws;
pub mod head_laws;
pub mod header_laws;
pub mod headers;
pub mod input_laws;
pub mod items;
pub mod laws;
pub mod line_laws;
pub mod output_laws;
pub mod peers;
pub mod readers;
pub mod receivebuffer;
pub mod reply_laws;
pub mod roundtrip;
pub mod segments;
pub mod shown;
pub mod state;
pub mod success;
pub mod text;
pub mod util;
pub mod writers;

pub use connection::Connection;
pub use events::{ConnectionClosed, Data, EndOfMessage, Event, Request, Response};
pub use headers::Headers;
pub use state::{EventType, Role, State, States, Switch};
pub use util::{LocalProtocolError, ProtocolError, RemoteProtocolError};
