# websocket

WebSocket transport: one frame is one stream, the upgraded case of HTTP. The
library is verified with Verus; it holds no socket and reads no wire.

- `src/frame.rs`: one data frame, written, and read whole or piece by piece.
- `src/handshake.rs`: the opening upgrade, request and response.
- `src/session.rs`: an exchange, as either end goes through it.
- `src/target.rs`: `ws://` targets.
- `src/sha1.rs`, `src/base64.rs`, `src/bytes.rs`, `src/text.rs`: what these are
  made of.
- `src/clock.rs`: the wall clock, which keys that need only vary come from.
- `app/`: the sockets around it, behind the `transport` crate's traits.

What the library promises as a whole stands in the proof functions whose names
start with `law_`.
