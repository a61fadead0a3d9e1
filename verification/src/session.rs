//! One exchange, from either end.
//!
//! A session is what one end knows at a point of the exchange. It holds what is
//! to be sent, or says what is to be read; what happens on the wire is handed
//! to it, and the next session comes back.
//!
//! ```text
//! server   Accepted -> Answering -> Receiving ... -> Arrived
//! client   Dialing -> Requesting -> the frame to send
//! ```

use vstd::prelude::*;
use vstd::string::StringExecFns;

use crate::error::ProtocolError;
use crate::frame::{encode, FrameReader, Progress, TooLong};
use crate::handshake::{accept, client_key_of, request_path, send_request, verify_response};
use crate::target::split_target;

verus! {

/// A message that has arrived, and where it came from.
#[derive(Debug, PartialEq, Eq)]
pub struct Arrived {
    pub origin_uri: String,
    pub bytes: Vec<u8>,
}

/// The origin of a message from `peer` to `path`.
pub open spec fn origin(peer: Seq<char>, path: Seq<char>) -> Seq<char> {
    "ws://"@ + peer + path
}

/// A server that has taken a connection: the head of the request is to be read.
pub struct Accepted {
    /// The other end's address.
    pub peer: String,
    /// The longest payload that is taken.
    pub limit: usize,
}

/// A server that has agreed to the upgrade: `response` is to be sent.
pub struct Answering {
    pub peer: String,
    pub path: String,
    pub response: Vec<u8>,
    pub limit: usize,
}

/// A server that has upgraded: the bytes that `reader` needs are to be read.
pub struct Receiving {
    pub peer: String,
    pub path: String,
    pub reader: FrameReader,
}

/// What a server has after one more piece of the frame.
pub enum Received {
    More(Receiving),
    Message(Arrived),
}

impl Accepted {
    /// A connection from `peer`, of which payloads of up to `limit` bytes are
    /// taken.
    pub fn new(peer: String, limit: usize) -> (session: Accepted)
        ensures
            session == (Accepted { peer, limit }),
    {
        Accepted { peer, limit }
    }

    /// The head has been read; `key` is its `Sec-WebSocket-Key`, if it had one.
    pub fn answer(self, head: &[String], key: Option<&str>) -> (r: Result<Answering, ProtocolError>)
        ensures
            match r {
                Ok(next) => {
                    &&& key matches Some(key)
                    &&& next.peer == self.peer
                    &&& next.limit == self.limit
                    &&& next.path@ == crate::handshake::path_in(crate::handshake::first_line(head@))
                    &&& next.response@ == vstd::utf8::encode_utf8(
                        crate::handshake::response_text(key@),
                    )
                },
                Err(ProtocolError::NoKey) => key is None,
                Err(_) => false,
            },
    {
        let path = request_path(head);
        let key = match client_key_of(key) {
            Ok(key) => key,
            Err(e) => {
                return Err(e);
            },
        };
        let mut response: Vec<u8> = Vec::new();
        accept(&mut response, key.as_str());
        proof {
            let text = vstd::utf8::encode_utf8(crate::handshake::response_text(key@));
            assert(Seq::<u8>::empty() + text =~= text);
        }
        Ok(Answering { peer: self.peer, path, response, limit: self.limit })
    }
}

impl Answering {
    /// The response has been sent.
    pub fn sent(self) -> (next: Receiving)
        ensures
            next == (Receiving {
                peer: self.peer,
                path: self.path,
                reader: FrameReader::Header { limit: self.limit },
            }),
    {
        Receiving { peer: self.peer, path: self.path, reader: FrameReader::new(self.limit) }
    }
}

impl Receiving {
    /// The bytes that the reader needed have been read.
    pub fn received(self, piece: &[u8]) -> (r: Result<Received, ProtocolError>)
        requires
            piece@.len() == self.reader.needed(),
        ensures
            match r {
                Ok(Received::More(next)) => {
                    &&& !(self.reader is Payload)
                    &&& self.reader.next(piece@) == Ok::<FrameReader, TooLong>(next.reader)
                    &&& next.peer == self.peer
                    &&& next.path == self.path
                },
                Ok(Received::Message(arrived)) => {
                    &&& self.reader matches FrameReader::Payload { key, .. }
                    &&& arrived.bytes@ == crate::frame::unmasked(piece@, key)
                    &&& arrived.origin_uri@ == origin(self.peer@, self.path@)
                },
                Err(ProtocolError::FrameTooLong(e)) => self.reader.next(piece@) == Err::<
                    FrameReader,
                    TooLong,
                >(e),
                Err(_) => false,
            },
    {
        match self.reader.feed(piece) {
            Ok(Progress::More(reader)) => Ok(
                Received::More(Receiving { peer: self.peer, path: self.path, reader }),
            ),
            Ok(Progress::Complete(bytes)) => {
                let mut origin_uri: String = "ws://".to_owned();
                origin_uri.append(self.peer.as_str());
                origin_uri.append(self.path.as_str());
                Ok(Received::Message(Arrived { origin_uri, bytes }))
            },
            Err(e) => Err(ProtocolError::FrameTooLong(e)),
        }
    }
}

/// A client that knows where to go: `authority` is to be connected to.
pub struct Dialing {
    pub authority: String,
    pub path: String,
    pub payload: Vec<u8>,
}

/// A client that is connected: `request` is to be sent, and the head of the
/// response to be read.
pub struct Requesting {
    pub request: Vec<u8>,
    pub key: String,
    pub payload: Vec<u8>,
}

impl Dialing {
    /// Send `payload` to a `ws://` target.
    pub fn new(target: &str, payload: Vec<u8>) -> (r: Result<Dialing, ProtocolError>)
        ensures
            match r {
                Ok(session) => {
                    &&& crate::target::is_ws(target@)
                    &&& session.authority@ == crate::target::authority_of(target@)
                    &&& session.path@ == crate::target::path_of(target@)
                    &&& session.payload == payload
                },
                Err(ProtocolError::NotAWsTarget(refused)) => !crate::target::is_ws(target@)
                    && refused@ == target@,
                Err(_) => false,
            },
    {
        match split_target(target) {
            Ok((authority, path)) => Ok(
                Dialing { authority: authority.to_owned(), path: path.to_owned(), payload },
            ),
            Err(e) => Err(e),
        }
    }

    /// The connection stands; ask `host` for the upgrade under `key`.
    pub fn request(self, host: &str, key: String) -> (next: Requesting)
        ensures
            next.request@ == vstd::utf8::encode_utf8(
                crate::handshake::request_text(host@, self.path@, key@),
            ),
            next.key == key,
            next.payload == self.payload,
    {
        let mut request: Vec<u8> = Vec::new();
        send_request(&mut request, host, self.path.as_str(), key.as_str());
        proof {
            let text = vstd::utf8::encode_utf8(
                crate::handshake::request_text(host@, self.path@, key@),
            );
            assert(Seq::<u8>::empty() + text =~= text);
        }
        Requesting { request, key, payload: self.payload }
    }
}

impl Requesting {
    /// The head of the response has been read; `field` is its
    /// `Sec-WebSocket-Accept`, if it had one. Where the server accepted, this is
    /// the frame to send, masked under `mask`.
    pub fn frame(self, head: &[String], field: Option<&str>, mask: [u8; 4]) -> (r: Result<
        Vec<u8>,
        ProtocolError,
    >)
        ensures
            match r {
                Ok(frame) => {
                    &&& crate::handshake::accepts(head@, field, self.key@)
                    &&& frame@ == crate::frame::frame_bytes(self.payload@, Some(mask))
                },
                Err(e) => crate::handshake::refuses(head@, field, self.key@, e),
            },
    {
        match verify_response(head, field, self.key.as_str()) {
            Ok(()) => Ok(encode(self.payload.as_slice(), Some(mask))),
            Err(e) => Err(e),
        }
    }
}

/// An exchange carries the payload and the path to the other end.
///
/// `asked` is the head that the server reads and `answered` the one that the
/// client reads, each with the first line that the other end sent, and `field`
/// the accept field of the response. Then the server sees the path of the
/// target; the client takes the response, and refuses it with any other accept
/// field; and whatever the mask key, and whatever follows on the wire, the frame
/// that the client sends gives the server the payload whole.
pub proof fn law_exchange_carries_payload_and_path(
    target: Seq<char>,
    host: Seq<char>,
    key: Seq<char>,
    asked: Seq<String>,
    answered: Seq<String>,
    field: Option<&str>,
    payload: Seq<u8>,
    mask: [u8; 4],
    limit: usize,
    rest: Seq<u8>,
)
    requires
        forall|i: int|
            0 <= i < crate::target::path_of(target).len() ==> !crate::text::is_white(
                #[trigger] crate::target::path_of(target)[i],
            ),
        crate::handshake::first_line(asked) == crate::text::lines(
            crate::handshake::request_text(host, crate::target::path_of(target), key),
        )[0],
        crate::handshake::first_line(answered) == crate::text::lines(
            crate::handshake::response_text(key),
        )[0],
        payload.len() <= limit,
    ensures
        crate::handshake::path_in(crate::handshake::first_line(asked)) == crate::target::path_of(
            target,
        ),
        crate::handshake::accepts(answered, field, key) <==> (field matches Some(value) && value@
            == crate::handshake::accept_token(key)),
        crate::frame::decode(crate::frame::frame_bytes(payload, Some(mask)) + rest, limit) == Ok::<(Seq<u8>, nat), crate::frame::FrameError>(
            (payload, crate::frame::frame_bytes(payload, Some(mask)).len()),
        ),
{
    let path = crate::target::path_of(target);
    crate::target::law_path_starts_with_a_slash(target);
    crate::handshake::law_path_reads_back(path);
    crate::handshake::law_request_line(host, path, key);
    crate::handshake::law_response_lines(key);
    crate::handshake::law_response_switches();
    crate::frame::law_frame_reads_back(payload, Some(mask), limit, rest);
}

/// The origin of a message is the scheme, the peer and the whole path, and
/// nothing more; where the peer has no `/` and the path starts with one, it is
/// the target that leads to that peer and asks for that path.
pub proof fn law_origin_names_the_peer_and_the_path(peer: Seq<char>, path: Seq<char>)
    ensures
        origin(peer, path).len() == 5 + peer.len() + path.len(),
        origin(peer, path)[0] == 'w',
        origin(peer, path)[1] == 's',
        origin(peer, path)[2] == ':',
        origin(peer, path)[3] == '/',
        origin(peer, path)[4] == '/',
        origin(peer, path).subrange(5, 5 + peer.len() as int) == peer,
        origin(peer, path).skip(5 + peer.len() as int) == path,
        !peer.contains('/') && path.len() > 0 && path[0] == '/' ==> {
            &&& crate::target::is_ws(origin(peer, path))
            &&& crate::target::authority_of(origin(peer, path)) == peer
            &&& crate::target::path_of(origin(peer, path)) == path
        },
{
    reveal_strlit("ws://");
    assert(origin(peer, path).subrange(5, 5 + peer.len() as int) =~= peer);
    assert(origin(peer, path).skip(5 + peer.len() as int) =~= path);
    if !peer.contains('/') && path.len() > 0 && path[0] == '/' {
        crate::target::law_target_splits_into_its_parts(peer, path);
    }
}

} // verus!
