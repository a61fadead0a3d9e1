//! What a peer or a caller got wrong.

use vstd::prelude::*;
use vstd::string::StringExecFns;

use crate::frame::TooLong;
use crate::text::to_decimal;

verus! {

/// A breach of the protocol.
#[derive(Debug, PartialEq, Eq)]
pub enum ProtocolError {
    /// The target does not start with `ws://`.
    NotAWsTarget(String),
    /// A frame that claims more bytes than are taken.
    FrameTooLong(TooLong),
    /// An upgrade request without a `Sec-WebSocket-Key`.
    NoKey,
    /// The server's status line, where it did not switch protocols.
    DidNotSwitch(String),
    /// A switch without a `Sec-WebSocket-Accept`.
    NoAccept,
    /// An accept token other than the key implies.
    WrongAccept,
}

impl ProtocolError {
    /// The error in words.
    pub open spec fn words(self) -> Seq<char> {
        match self {
            ProtocolError::NotAWsTarget(target) => "not a ws:// target: "@ + target@,
            ProtocolError::FrameTooLong(e) => "a frame of "@ + crate::text::decimal(e.length as nat)
                + " bytes, over the "@ + crate::text::decimal(e.limit as nat) + " byte limit"@,
            ProtocolError::NoKey => "a websocket request with no Sec-WebSocket-Key"@,
            ProtocolError::DidNotSwitch(status) => "the server did not switch: "@ + status@,
            ProtocolError::NoAccept => "a 101 with no Sec-WebSocket-Accept"@,
            ProtocolError::WrongAccept => "the server's accept token did not match the key"@,
        }
    }

    /// The error in words.
    pub fn message(&self) -> (text: String)
        ensures
            text@ == self.words(),
    {
        match self {
            ProtocolError::NotAWsTarget(target) => {
                let mut text: String = "not a ws:// target: ".to_owned();
                text.append(target.as_str());
                text
            },
            ProtocolError::FrameTooLong(e) => {
                let mut text: String = "a frame of ".to_owned();
                text.append(to_decimal(e.length).as_str());
                text.append(" bytes, over the ");
                text.append(to_decimal(e.limit).as_str());
                text.append(" byte limit");
                text
            },
            ProtocolError::NoKey => "a websocket request with no Sec-WebSocket-Key".to_owned(),
            ProtocolError::DidNotSwitch(status) => {
                let mut text: String = "the server did not switch: ".to_owned();
                text.append(status.as_str());
                text
            },
            ProtocolError::NoAccept => "a 101 with no Sec-WebSocket-Accept".to_owned(),
            ProtocolError::WrongAccept => {
                "the server's accept token did not match the key".to_owned()
            },
        }
    }
}

/// An error that names a text names it whole, behind what is wrong with it.
pub proof fn law_message_names_the_text_whole(text: String)
    ensures
        ({
            let refused = ProtocolError::NotAWsTarget(text).words();
            let kept = ProtocolError::DidNotSwitch(text).words();
            &&& refused.len() == 20 + text@.len()
            &&& refused.take(20) == "not a ws:// target: "@
            &&& refused.skip(20) == text@
            &&& kept.len() == 27 + text@.len()
            &&& kept.take(27) == "the server did not switch: "@
            &&& kept.skip(27) == text@
        }),
{
    reveal_strlit("not a ws:// target: ");
    reveal_strlit("the server did not switch: ");
    let refused = ProtocolError::NotAWsTarget(text).words();
    let kept = ProtocolError::DidNotSwitch(text).words();
    assert(refused.take(20) =~= "not a ws:// target: "@);
    assert(refused.skip(20) =~= text@);
    assert(kept.take(27) =~= "the server did not switch: "@);
    assert(kept.skip(27) =~= text@);
}

/// An error about a length says the length and then the limit, in decimal.
pub proof fn law_message_says_length_and_limit(e: TooLong)
    ensures
        ({
            let text = ProtocolError::FrameTooLong(e).words();
            let length = crate::text::decimal(e.length as nat);
            let limit = crate::text::decimal(e.limit as nat);
            let n = length.len() as int;
            let m = limit.len() as int;
            &&& text.len() == 39 + n + m
            &&& text.take(11) == "a frame of "@
            &&& text.subrange(11, 11 + n) == length
            &&& text.subrange(11 + n, 28 + n) == " bytes, over the "@
            &&& text.subrange(28 + n, 28 + n + m) == limit
            &&& text.skip(28 + n + m) == " byte limit"@
        }),
{
    reveal_strlit("a frame of ");
    reveal_strlit(" bytes, over the ");
    reveal_strlit(" byte limit");
    let text = ProtocolError::FrameTooLong(e).words();
    let length = crate::text::decimal(e.length as nat);
    let limit = crate::text::decimal(e.limit as nat);
    let n = length.len() as int;
    let m = limit.len() as int;
    assert(text.take(11) =~= "a frame of "@);
    assert(text.subrange(11, 11 + n) =~= length);
    assert(text.subrange(11 + n, 28 + n) =~= " bytes, over the "@);
    assert(text.subrange(28 + n, 28 + n + m) =~= limit);
    assert(text.skip(28 + n + m) =~= " byte limit"@);
}

} // verus!
