//! Streams that arrive over a WebSocket. One frame is one stream.
//!
//! The upgraded case of HTTP: the caller opens with an HTTP request, both sides
//! switch protocols, and from then on it is framed messages over the same TCP
//! connection. One message is driven each way and the connection is closed: a
//! request/response shape, like HTTP, but over the WebSocket framing that a
//! browser or a streaming partner speaks.
//!
//! ```text
//! handshake.rs  the opening upgrade
//! frame.rs      one data frame, masked or not
//! session.rs    an exchange, from either end
//! target.rs     ws:// targets
//! sha1.rs       \
//! base64.rs      | what the handshake and the framing are made of
//! bytes.rs       |
//! text.rs       /
//! clock.rs      where keys that need only vary come from
//! ```

use std::time::Duration;

use vstd::prelude::*;

pub mod base64;
pub mod bytes;
pub mod clock;
pub mod error;
pub mod frame;
pub mod handshake;
pub mod session;
pub mod sha1;
pub mod target;
pub mod text;

verus! {

/// A WebSocket endpoint: where it listens, and how long it waits for a
/// connection that has stopped sending.
#[derive(Clone)]
pub struct WebSocketTransport {
    /// The address to listen on.
    pub bind: String,
    /// The read timeout of an accepted connection, if it has one.
    pub accept_timeout: Option<Duration>,
}

impl WebSocketTransport {
    /// An endpoint at this address, which waits for ever.
    #[must_use]
    pub fn new(bind: &str) -> (transport: Self)
        ensures
            transport.bind@ == bind@,
            transport.accept_timeout is None,
    {
        WebSocketTransport { bind: bind.to_owned(), accept_timeout: None }
    }

    /// Give up on a connection that stops sending.
    #[must_use]
    pub fn timing_out_after(self, timeout: Duration) -> (transport: Self)
        ensures
            transport.bind == self.bind,
            transport.accept_timeout == Some(timeout),
    {
        WebSocketTransport { bind: self.bind, accept_timeout: Some(timeout) }
    }

    /// Both ends on this machine: an ephemeral local port, and a timeout on the
    /// accept.
    #[must_use]
    pub fn loopback(timeout: Duration) -> (transport: Self)
        ensures
            transport.bind@ == "127.0.0.1:0"@,
            transport.accept_timeout == Some(timeout),
    {
        Self::new("127.0.0.1:0").timing_out_after(timeout)
    }
}

} // verus!
