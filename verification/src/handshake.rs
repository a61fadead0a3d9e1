//! The WebSocket opening handshake.
//!
//! RFC 6455 turns one HTTP request into a WebSocket by echoing the client's
//! `Sec-WebSocket-Key` through SHA-1 and base64 into a `Sec-WebSocket-Accept`.
//!
//! A head is the lines of a request or a response before the blank one, its
//! first line first. The header fields are looked up by whoever read the head;
//! the functions here take the field that they need, if the head had it.

use vstd::prelude::*;
use vstd::string::StringExecFns;

use crate::base64;
use crate::bytes::append;
use crate::clock::reading;
use crate::error::ProtocolError;
use crate::sha1;
use crate::text::{first_number, second_word};

verus! {

/// The GUID that RFC 6455 fixes for the accept computation.
pub const WS_GUID: &'static str = "258EAFA5-E914-47DA-95CA-C5AB0DC85B11";

/// The accept token for a client's key: base64 of the SHA-1 of the key
/// concatenated with the fixed GUID.
pub open spec fn accept_token(client_key: Seq<char>) -> Seq<char> {
    crate::base64::base64(
        crate::sha1::sha1(vstd::utf8::encode_utf8(client_key + WS_GUID@)),
    )
}

/// The first line of a head, empty where the head is.
pub open spec fn first_line(head: Seq<String>) -> Seq<char> {
    if head.len() > 0 {
        head[0]@
    } else {
        Seq::empty()
    }
}

/// The path that a request line asks for: its second word, `/` where it has
/// none.
pub open spec fn path_in(line: Seq<char>) -> Seq<char> {
    let words = crate::text::words(line);
    if words.len() > 1 {
        words[1]
    } else {
        "/"@
    }
}

/// The accept token that a server returns for a client's key.
pub fn accept_key(client_key: &str) -> (token: String)
    ensures
        token@ == accept_token(client_key@),
{
    let mut input: String = client_key.to_owned();
    input.append(WS_GUID);
    let digest: Vec<u8> = sha1::digest(input.as_str().as_bytes());
    base64::encode(digest.as_slice())
}

/// The path from the request line: `GET /feed HTTP/1.1`.
pub fn request_path(head: &[String]) -> (path: String)
    ensures
        path@ == path_in(first_line(head@)),
{
    if head.len() == 0 {
        return "/".to_owned();
    }
    match second_word(head[0].as_str()) {
        Some(path) => path.to_owned(),
        None => "/".to_owned(),
    }
}

/// The client's key, where the head had the field.
pub fn client_key_of(field: Option<&str>) -> (key: Result<String, ProtocolError>)
    ensures
        match field {
            Some(value) => key matches Ok(key) && key@ == value@,
            None => key matches Err(ProtocolError::NoKey),
        },
{
    match field {
        Some(value) => Ok(value.to_owned()),
        None => Err(ProtocolError::NoKey),
    }
}

/// The state of the generator after `n` steps from `seed`.
pub open spec fn generated(seed: u64, n: nat) -> u64
    decreases n,
{
    if n == 0 {
        seed
    } else {
        generated(seed, (n - 1) as nat).wrapping_mul(6_364_136_223_846_793_005u64).wrapping_add(
            1_442_695_040_888_963_407u64,
        )
    }
}

/// The first `n` bytes that the generator gives from `seed`: of each state,
/// the eight bits above the lowest 33.
pub open spec fn nonce(seed: u64, n: nat) -> Seq<u8> {
    Seq::new(n, |i: int| ((generated(seed, (i + 1) as nat) >> 33) % 256) as u8)
}

/// The seed that a clock reading gives, a fixed one where the clock says
/// nothing.
pub open spec fn seed_at(elapsed: Option<(u64, u32)>) -> u64 {
    match elapsed {
        Some((seconds, nanos)) => seconds ^ (nanos as u64),
        None => 0x9E37_79B9_7F4A_7C15,
    }
}

/// `n` bytes from `seed` through a linear congruential generator.
pub fn nonce_from(seed: u64, n: usize) -> (out: Vec<u8>)
    ensures
        out@ == nonce(seed, n as nat),
{
    let mut state: u64 = seed;
    let mut out: Vec<u8> = Vec::new();
    let mut i: usize = 0;
    while i < n
        invariant
            i <= n,
            state == generated(seed, i as nat),
            out@ == nonce(seed, i as nat),
        decreases n - i,
    {
        state = state.wrapping_mul(6_364_136_223_846_793_005).wrapping_add(
            1_442_695_040_888_963_407,
        );
        out.push(((state >> 33) % 256) as u8);
        i = i + 1;
        assert(out@ =~= nonce(seed, i as nat));
    }
    out
}

/// `n` bytes of nonce for a clock reading.
pub fn pseudo_random_at(elapsed: Option<(u64, u32)>, n: usize) -> (out: Vec<u8>)
    ensures
        out@ == nonce(seed_at(elapsed), n as nat),
{
    let seed: u64 = match elapsed {
        Some((seconds, nanos)) => seconds ^ (nanos as u64),
        None => 0x9E37_79B9_7F4A_7C15,
    };
    nonce_from(seed, n)
}

/// `n` bytes of non-secret nonce, from the clock. A handshake nonce needs to
/// vary, not to be unguessable.
pub fn pseudo_random(n: usize) -> (out: Vec<u8>)
    ensures
        exists|elapsed: Option<(u64, u32)>|
            crate::clock::is_reading(elapsed) && out@ == nonce(
                #[trigger] seed_at(elapsed),
                n as nat,
            ),
{
    let elapsed = reading();
    pseudo_random_at(elapsed, n)
}

/// The client key that a clock reading gives.
pub open spec fn key_at(elapsed: Option<(u64, u32)>) -> Seq<char> {
    crate::base64::base64(nonce(seed_at(elapsed), 16))
}

/// The client key for a clock reading.
pub fn client_key_at(elapsed: Option<(u64, u32)>) -> (key: String)
    ensures
        key@ == key_at(elapsed),
        key@.len() == 24,
{
    let random = pseudo_random_at(elapsed, 16);
    proof {
        crate::base64::law_base64_length(random@);
    }
    base64::encode(random.as_slice())
}

/// A fresh client key: sixteen bytes, base64-encoded, as RFC 6455 asks.
pub fn client_key() -> (key: String)
    ensures
        exists|elapsed: Option<(u64, u32)>|
            crate::clock::is_reading(elapsed) && key@ == #[trigger] key_at(elapsed),
        key@.len() == 24,
{
    let elapsed = reading();
    client_key_at(elapsed)
}

/// The client's upgrade request.
pub open spec fn request_text(host: Seq<char>, path: Seq<char>, key: Seq<char>) -> Seq<char> {
    "GET "@ + path + " HTTP/1.1\r\nHost: "@ + host
        + "\r\nUpgrade: websocket\r\nConnection: Upgrade\r\nSec-WebSocket-Key: "@ + key
        + "\r\nSec-WebSocket-Version: 13\r\n\r\n"@
}

/// The server's `101 Switching Protocols`, with the accept token of the key.
pub open spec fn response_text(client_key: Seq<char>) -> Seq<char> {
    "HTTP/1.1 101 Switching Protocols\r\nUpgrade: websocket\r\nConnection: Upgrade\r\nSec-WebSocket-Accept: "@
        + accept_token(client_key) + "\r\n\r\n"@
}

/// Append the client's upgrade request to `stream`.
pub fn send_request(stream: &mut Vec<u8>, host: &str, path: &str, key: &str)
    ensures
        final(stream)@ == old(stream)@ + vstd::utf8::encode_utf8(
            request_text(host@, path@, key@),
        ),
{
    let mut text: String = "GET ".to_owned();
    text.append(path);
    text.append(" HTTP/1.1\r\nHost: ");
    text.append(host);
    text.append("\r\nUpgrade: websocket\r\nConnection: Upgrade\r\nSec-WebSocket-Key: ");
    text.append(key);
    text.append("\r\nSec-WebSocket-Version: 13\r\n\r\n");
    append(stream, text.as_str().as_bytes());
}

/// Append the server's `101 Switching Protocols` to `stream`.
pub fn accept(stream: &mut Vec<u8>, client_key: &str)
    ensures
        final(stream)@ == old(stream)@ + vstd::utf8::encode_utf8(response_text(client_key@)),
{
    let mut text: String =
        "HTTP/1.1 101 Switching Protocols\r\nUpgrade: websocket\r\nConnection: Upgrade\r\nSec-WebSocket-Accept: ".to_owned();
    text.append(accept_key(client_key).as_str());
    text.append("\r\n\r\n");
    append(stream, text.as_str().as_bytes());
}

/// Whether a status line says that the server switches protocols: its status
/// code is `101`. The code is the line's first number, behind a version such as
/// `HTTP/1.1`, which does not start with a digit, or with no version before it.
pub open spec fn says_switching(status: Seq<char>) -> bool {
    crate::text::number_in(status) == "101"@
}

/// Whether a response accepts the upgrade under `key`: it switches, and has
/// the accept token that the key implies.
pub open spec fn accepts(head: Seq<String>, field: Option<&str>, key: Seq<char>) -> bool {
    says_switching(first_line(head)) && (field matches Some(value) && value@ == accept_token(key))
}

/// Whether a response does not, and this is why.
pub open spec fn refuses(
    head: Seq<String>,
    field: Option<&str>,
    key: Seq<char>,
    why: ProtocolError,
) -> bool {
    match why {
        ProtocolError::DidNotSwitch(status) => !says_switching(first_line(head)) && status@
            == first_line(head),
        ProtocolError::NoAccept => says_switching(first_line(head)) && field is None,
        ProtocolError::WrongAccept => says_switching(first_line(head)) && (field matches Some(value)
            && value@ != accept_token(key)),
        _ => false,
    }
}

/// Check that the server accepted with the token that our key implies. `field`
/// is the `Sec-WebSocket-Accept` of the response, if it had one.
pub fn verify_response(head: &[String], field: Option<&str>, key: &str) -> (r: Result<
    (),
    ProtocolError,
>)
    ensures
        match r {
            Ok(()) => accepts(head@, field, key@),
            Err(why) => refuses(head@, field, key@, why),
        },
{
    let status: &str = if head.len() > 0 {
        head[0].as_str()
    } else {
        ""
    };
    proof {
        reveal_strlit("");
        assert(status@ =~= first_line(head@));
    }
    if first_number(status).to_owned() != "101".to_owned() {
        return Err(ProtocolError::DidNotSwitch(status.to_owned()));
    }
    let value = match field {
        Some(value) => value,
        None => {
            return Err(ProtocolError::NoAccept);
        },
    };
    if value.to_owned() != accept_key(key) {
        return Err(ProtocolError::WrongAccept);
    }
    Ok(())
}

/// An accept token is twenty-eight characters of printable ASCII, whatever the
/// key.
pub proof fn law_accept_token_is_printable(client_key: Seq<char>)
    ensures
        accept_token(client_key).len() == 28,
        forall|i: int|
            0 <= i < accept_token(client_key).len() ==> '!' <= #[trigger] accept_token(
                client_key,
            )[i] <= '~',
{
    let digest = crate::sha1::sha1(vstd::utf8::encode_utf8(client_key + WS_GUID@));
    crate::sha1::law_digest_length(vstd::utf8::encode_utf8(client_key + WS_GUID@));
    crate::base64::law_base64_length(digest);
    crate::base64::law_base64_is_printable(digest);
}

/// A client key is twenty-four characters of printable ASCII, whatever the clock
/// says.
pub proof fn law_client_key_is_printable(elapsed: Option<(u64, u32)>)
    ensures
        key_at(elapsed).len() == 24,
        forall|i: int|
            0 <= i < key_at(elapsed).len() ==> '!' <= #[trigger] key_at(elapsed)[i] <= '~',
{
    let random = nonce(seed_at(elapsed), 16);
    crate::base64::law_base64_length(random);
    crate::base64::law_base64_is_printable(random);
}

/// Two keys have one accept token only where they have one digest.
pub proof fn law_accept_token_tells_digests_apart(left: Seq<char>, right: Seq<char>)
    ensures
        accept_token(left) == accept_token(right) <==> crate::sha1::sha1(
            vstd::utf8::encode_utf8(left + WS_GUID@),
        ) == crate::sha1::sha1(vstd::utf8::encode_utf8(right + WS_GUID@)),
{
    if accept_token(left) == accept_token(right) {
        crate::base64::law_base64_tells_data_apart(
            crate::sha1::sha1(vstd::utf8::encode_utf8(left + WS_GUID@)),
            crate::sha1::sha1(vstd::utf8::encode_utf8(right + WS_GUID@)),
        );
    }
}

/// The lines of a request: the request line, the fields, and the blank line
/// that ends the head.
pub proof fn law_request_lines(host: Seq<char>, path: Seq<char>, key: Seq<char>)
    requires
        !host.contains('\r'),
        !path.contains('\r'),
        !key.contains('\r'),
    ensures
        crate::text::lines(request_text(host, path, key)) == seq![
            "GET "@ + path + " HTTP/1.1"@,
            "Host: "@ + host,
            "Upgrade: websocket"@,
            "Connection: Upgrade"@,
            "Sec-WebSocket-Key: "@ + key,
            "Sec-WebSocket-Version: 13"@,
            ""@,
            ""@,
        ],
{
    reveal_strlit("GET ");
    reveal_strlit(" HTTP/1.1\r\nHost: ");
    reveal_strlit("\r\nUpgrade: websocket\r\nConnection: Upgrade\r\nSec-WebSocket-Key: ");
    reveal_strlit("\r\nSec-WebSocket-Version: 13\r\n\r\n");
    reveal_strlit(" HTTP/1.1");
    reveal_strlit("Host: ");
    reveal_strlit("Upgrade: websocket");
    reveal_strlit("Connection: Upgrade");
    reveal_strlit("Sec-WebSocket-Key: ");
    reveal_strlit("Sec-WebSocket-Version: 13");
    reveal_strlit("");
    let crlf = seq!['\r', '\n'];
    let l0 = "GET "@ + path + " HTTP/1.1"@;
    let l1 = "Host: "@ + host;
    let l2 = "Upgrade: websocket"@;
    let l3 = "Connection: Upgrade"@;
    let l4 = "Sec-WebSocket-Key: "@ + key;
    let l5 = "Sec-WebSocket-Version: 13"@;
    let l6 = ""@;
    let r6 = l6 + crlf + ""@;
    let r5 = l5 + crlf + r6;
    let r4 = l4 + crlf + r5;
    let r3 = l3 + crlf + r4;
    let r2 = l2 + crlf + r3;
    let r1 = l1 + crlf + r2;
    assert(request_text(host, path, key) =~= l0 + crlf + r1);
    lemma_no_cr("GET "@, path);
    lemma_no_cr("GET "@ + path, " HTTP/1.1"@);
    lemma_no_cr("Host: "@, host);
    lemma_no_cr("Sec-WebSocket-Key: "@, key);
    crate::text::lemma_first_line(l0, r1);
    crate::text::lemma_first_line(l1, r2);
    crate::text::lemma_first_line(l2, r3);
    crate::text::lemma_first_line(l3, r4);
    crate::text::lemma_first_line(l4, r5);
    crate::text::lemma_first_line(l5, r6);
    crate::text::lemma_first_line(l6, ""@);
    assert(crate::text::lines(request_text(host, path, key)) =~= seq![
        l0,
        l1,
        l2,
        l3,
        l4,
        l5,
        l6,
        ""@,
    ]);
}

/// The first line of a request asks for the path, whatever the other fields
/// hold.
pub proof fn law_request_line(host: Seq<char>, path: Seq<char>, key: Seq<char>)
    requires
        !path.contains('\r'),
    ensures
        crate::text::lines(request_text(host, path, key))[0] == "GET "@ + path + " HTTP/1.1"@,
{
    reveal_strlit("GET ");
    reveal_strlit(" HTTP/1.1\r\nHost: ");
    reveal_strlit(" HTTP/1.1");
    let text = request_text(host, path, key);
    let line = "GET "@ + path + " HTTP/1.1"@;
    let rest = text.skip(line.len() as int + 2);
    assert(text =~= line + seq!['\r', '\n'] + rest);
    lemma_no_cr("GET "@, path);
    lemma_no_cr("GET "@ + path, " HTTP/1.1"@);
    crate::text::lemma_first_line(line, rest);
}

/// What is put together from text without CR has no CR.
proof fn lemma_no_cr(left: Seq<char>, right: Seq<char>)
    requires
        !left.contains('\r'),
        !right.contains('\r'),
    ensures
        !(left + right).contains('\r'),
{
    let whole = left + right;
    assert forall|i: int| 0 <= i < whole.len() implies whole[i] != '\r' by {
        if i < left.len() {
            assert(left.contains(whole[i]));
        } else {
            assert(right.contains(right[i - left.len()]));
        }
    }
}

/// The lines of a response, whatever the key: the status line, the fields, and
/// the blank line that ends the head.
pub proof fn law_response_lines(client_key: Seq<char>)
    ensures
        crate::text::lines(response_text(client_key)) == seq![
            "HTTP/1.1 101 Switching Protocols"@,
            "Upgrade: websocket"@,
            "Connection: Upgrade"@,
            "Sec-WebSocket-Accept: "@ + accept_token(client_key),
            ""@,
            ""@,
        ],
{
    reveal_strlit(
        "HTTP/1.1 101 Switching Protocols\r\nUpgrade: websocket\r\nConnection: Upgrade\r\nSec-WebSocket-Accept: ",
    );
    reveal_strlit("\r\n\r\n");
    reveal_strlit("HTTP/1.1 101 Switching Protocols");
    reveal_strlit("Upgrade: websocket");
    reveal_strlit("Connection: Upgrade");
    reveal_strlit("Sec-WebSocket-Accept: ");
    reveal_strlit("");
    let crlf = seq!['\r', '\n'];
    let token = accept_token(client_key);
    let l0 = "HTTP/1.1 101 Switching Protocols"@;
    let l1 = "Upgrade: websocket"@;
    let l2 = "Connection: Upgrade"@;
    let l3 = "Sec-WebSocket-Accept: "@ + token;
    let l4 = ""@;
    let r4 = l4 + crlf + ""@;
    let r3 = l3 + crlf + r4;
    let r2 = l2 + crlf + r3;
    let r1 = l1 + crlf + r2;
    assert(response_text(client_key) =~= l0 + crlf + r1);
    law_accept_token_is_printable(client_key);
    assert(!token.contains('\r'));
    lemma_no_cr("Sec-WebSocket-Accept: "@, token);
    crate::text::lemma_first_line(l0, r1);
    crate::text::lemma_first_line(l1, r2);
    crate::text::lemma_first_line(l2, r3);
    crate::text::lemma_first_line(l3, r4);
    crate::text::lemma_first_line(l4, ""@);
    assert(crate::text::lines(response_text(client_key)) =~= seq![l0, l1, l2, l3, l4, ""@]);
}

/// A path without white space is read back from the line that asks for it.
pub proof fn law_path_reads_back(path: Seq<char>)
    requires
        path.len() > 0,
        forall|i: int| 0 <= i < path.len() ==> !crate::text::is_white(#[trigger] path[i]),
    ensures
        path_in("GET "@ + path + " HTTP/1.1"@) == path,
{
    reveal_strlit("GET ");
    reveal_strlit(" HTTP/1.1");
    let line = "GET "@ + path + " HTTP/1.1"@;
    crate::text::lemma_leading_is(line, true, 0);
    assert(line.skip(0) =~= line);
    crate::text::lemma_leading_is(line, false, 3);
    let rest = line.skip(3);
    crate::text::lemma_leading_is(rest, true, 1);
    let from = rest.skip(1);
    assert(from =~= path + " HTTP/1.1"@);
    crate::text::lemma_leading_is(from, false, path.len());
    assert(from.take(path.len() as int) =~= path);
    reveal_with_fuel(crate::text::words, 3);
}

/// The number of a status line is its status code: the digits after the version
/// and a space, whatever the reason that follows.
pub proof fn law_status_code_is_read(version: Seq<char>, code: Seq<char>, reason: Seq<char>)
    requires
        version.len() > 0,
        !crate::text::is_digit(version[0]),
        forall|i: int| 0 <= i < version.len() ==> !crate::text::is_white(#[trigger] version[i]),
        code.len() > 0,
        forall|i: int| 0 <= i < code.len() ==> crate::text::is_digit(#[trigger] code[i]),
        reason.len() > 0 ==> !crate::text::is_digit(reason[0]),
    ensures
        crate::text::number_in(version + " "@ + code + reason) == code,
        says_switching(version + " "@ + code + reason) <==> code == "101"@,
{
    reveal_strlit(" ");
    let line = version + " "@ + code + reason;
    let start = version.len() + 1;
    assert forall|i: nat| i < start implies !#[trigger] crate::text::starts_number(line, i) by {
        if 0 < i <= version.len() {
            assert(line[i - 1] == version[i - 1]);
        }
    }
    crate::text::lemma_number_start_is(line, 0, start);
    assert(line[start as int] == code[0]);
    assert(crate::text::starts_number(line, start));
    assert forall|i: int| start <= i < start + code.len() implies crate::text::is_digit(
        #[trigger] line[i],
    ) by {
        assert(line[i] == code[i - start]);
    }
    crate::text::lemma_digits_end_is(line, start, start + code.len());
    assert(line.subrange(start as int, (start + code.len()) as int) =~= code);
}

/// A status line without a version is read by the code that it starts with.
pub proof fn law_status_code_without_version(code: Seq<char>, reason: Seq<char>)
    requires
        code.len() > 0,
        forall|i: int| 0 <= i < code.len() ==> crate::text::is_digit(#[trigger] code[i]),
        reason.len() > 0 ==> !crate::text::is_digit(reason[0]),
    ensures
        crate::text::number_in(code + reason) == code,
        says_switching(code + reason) <==> code == "101"@,
{
    let line = code + reason;
    assert(line[0] == code[0]);
    assert(crate::text::starts_number(line, 0));
    assert forall|i: int| 0 <= i < code.len() implies crate::text::is_digit(#[trigger] line[i]) by {
        assert(line[i] == code[i]);
    }
    crate::text::lemma_digits_end_is(line, 0, code.len());
    assert(line.subrange(0, code.len() as int) =~= code);
}

/// The status line of a response says that the server switches.
pub proof fn law_response_switches()
    ensures
        says_switching("HTTP/1.1 101 Switching Protocols"@),
{
    reveal_strlit("HTTP/1.1 101 Switching Protocols");
    reveal_strlit("HTTP/1.1");
    reveal_strlit(" ");
    reveal_strlit("101");
    reveal_strlit(" Switching Protocols");
    law_status_code_is_read("HTTP/1.1"@, "101"@, " Switching Protocols"@);
    assert("HTTP/1.1 101 Switching Protocols"@ =~= "HTTP/1.1"@ + " "@ + "101"@
        + " Switching Protocols"@);
}

/// An accept token is decoded to the digest of the key and the GUID behind it,
/// and to nothing else: seven groups of four characters, each of the alphabet,
/// spell the twenty bytes of the digest and one of padding.
pub proof fn law_accept_token_spells_the_digest(client_key: Seq<char>, g: int)
    requires
        0 <= g < 7,
    ensures
        ({
            let digest = crate::sha1::sha1(vstd::utf8::encode_utf8(client_key + "258EAFA5-E914-47DA-95CA-C5AB0DC85B11"@));
            let token = accept_token(client_key);
            let alphabet = "ABCDEFGHIJKLMNOPQRSTUVWXYZabcdefghijklmnopqrstuvwxyz0123456789+/"@;
            let v0 = crate::base64::six_bits(token[4 * g]);
            let v1 = crate::base64::six_bits(token[4 * g + 1]);
            let v2 = crate::base64::six_bits(token[4 * g + 2]);
            let v3 = crate::base64::six_bits(token[4 * g + 3]);
            let b2 = if g < 6 { digest[3 * g + 2] as int } else { 0 };
            &&& crate::base64::decoded(token) == digest
            &&& token.len() == 28
            &&& token[27] == '='
            &&& token[4 * g] == alphabet[v0]
            &&& token[4 * g + 1] == alphabet[v1]
            &&& token[4 * g + 2] == alphabet[v2]
            &&& g < 6 ==> token[4 * g + 3] == alphabet[v3]
            &&& ((v0 * 64 + v1) * 64 + v2) * 64 + v3 == (digest[3 * g] * 0x100 + digest[3 * g + 1])
                * 0x100 + b2
        }),
{
    let input = vstd::utf8::encode_utf8(client_key + "258EAFA5-E914-47DA-95CA-C5AB0DC85B11"@);
    let digest = crate::sha1::sha1(input);
    crate::sha1::law_digest_length(input);
    law_accept_token_is_printable(client_key);
    crate::base64::law_base64_decodes(digest);
    crate::base64::law_four_characters_spell_three_bytes(digest, g);
    crate::base64::law_four_characters_spell_three_bytes(digest, 6);
}

/// The first line of a head is its first, and of no head an empty one.
pub proof fn law_first_line_is_the_first(head: Seq<String>)
    ensures
        head.len() > 0 ==> first_line(head) == head[0]@,
        head.len() == 0 ==> first_line(head).len() == 0,
{
}

/// The path of a request is the second word of its first line, whatever white
/// space stands around it and whatever follows.
pub proof fn law_path_is_the_second_word(
    head: Seq<String>,
    lead: Seq<char>,
    first: Seq<char>,
    gap: Seq<char>,
    second: Seq<char>,
    tail: Seq<char>,
)
    requires
        head.len() > 0,
        head[0]@ == lead + first + gap + second + tail,
        forall|i: int| 0 <= i < lead.len() ==> crate::text::is_white(#[trigger] lead[i]),
        first.len() > 0,
        forall|i: int| 0 <= i < first.len() ==> !crate::text::is_white(#[trigger] first[i]),
        gap.len() > 0,
        forall|i: int| 0 <= i < gap.len() ==> crate::text::is_white(#[trigger] gap[i]),
        second.len() > 0,
        forall|i: int| 0 <= i < second.len() ==> !crate::text::is_white(#[trigger] second[i]),
        tail.len() > 0 ==> crate::text::is_white(tail[0]),
    ensures
        path_in(first_line(head)) == second,
{
    crate::text::law_words_are_parted_by_white_space(lead, first, gap, second, tail);
}

/// A request whose first line has fewer than two words, or that has no line,
/// asks for `/`.
pub proof fn law_path_is_the_root_where_none_is_named(
    head: Seq<String>,
    lead: Seq<char>,
    word: Seq<char>,
    tail: Seq<char>,
)
    requires
        head.len() > 0 ==> head[0]@ == lead + word + tail,
        forall|i: int| 0 <= i < lead.len() ==> crate::text::is_white(#[trigger] lead[i]),
        forall|i: int| 0 <= i < word.len() ==> !crate::text::is_white(#[trigger] word[i]),
        forall|i: int| 0 <= i < tail.len() ==> crate::text::is_white(#[trigger] tail[i]),
    ensures
        path_in(first_line(head)) == seq!['/'],
{
    reveal_strlit("/");
    assert("/"@ =~= seq!['/']);
    if head.len() > 0 {
        crate::text::law_one_stretch_is_one_word(lead, word, tail);
    } else {
        let none = Seq::<char>::empty();
        crate::text::law_one_stretch_is_one_word(none, none, none);
        assert(none + none + none =~= none);
    }
}

/// A response is accepted exactly where its accept field is there and is the
/// token of the key, and its status code is 101: the first word of the first
/// line to start with a digit starts with `101` and no fourth digit.
pub proof fn law_accepted_is_a_101_with_the_token(
    head: Seq<String>,
    field: Option<&str>,
    key: Seq<char>,
)
    ensures
        accepts(head, field, key) <==> (field matches Some(value) && value@ == accept_token(key))
            && head.len() > 0 && exists|at: int|
            0 <= at && at + 3 <= head[0]@.len() && #[trigger] head[0]@[at] == '1' && head[0]@[at
                + 1] == '0' && head[0]@[at + 2] == '1' && (at == 0 || crate::text::is_white(
                head[0]@[at - 1],
            )) && (at + 3 == head[0]@.len() || !('0' <= head[0]@[at + 3] <= '9')) && forall|i: int|
                0 <= i < at && '0' <= #[trigger] head[0]@[i] <= '9' ==> i > 0
                    && !crate::text::is_white(head[0]@[i - 1]),
{
    reveal_strlit("101");
    let s = first_line(head);
    let code = "101"@;
    crate::text::lemma_number_start(s, 0);
    let start = crate::text::number_start(s, 0);
    crate::text::lemma_digits_end(s, start);
    let end = crate::text::digits_end(s, start);
    if says_switching(s) {
        let number = s.subrange(start as int, end as int);
        assert(number.len() == 3);
        assert(number[0] == code[0] && number[1] == code[1] && number[2] == code[2]);
        assert(s[start as int] == '1');
        assert forall|i: int| 0 <= i < start && '0' <= #[trigger] s[i] <= '9' implies i > 0
            && !crate::text::is_white(s[i - 1]) by {
            assert(!crate::text::starts_number(s, i as nat));
        }
    }
    if head.len() > 0 {
        assert forall|at: int|
            0 <= at && at + 3 <= s.len() && #[trigger] s[at] == '1' && s[at + 1] == '0' && s[at + 2]
                == '1' && (at == 0 || crate::text::is_white(s[at - 1])) && (at + 3 == s.len() || !(
            '0' <= s[at + 3] <= '9')) && (forall|i: int|
                0 <= i < at && '0' <= #[trigger] s[i] <= '9' ==> i > 0 && !crate::text::is_white(
                    s[i - 1],
                )) implies says_switching(s) by {
            let front = s.take(at);
            let behind = s.skip(at + 3);
            assert forall|i: int|
                0 <= i < front.len() && '0' <= #[trigger] front[i] <= '9' implies i > 0
                && !crate::text::is_white(front[i - 1]) by {
                assert(s[i] == front[i]);
            }
            crate::text::law_first_number_starts_a_word(front, code, behind);
            assert(s =~= front + code + behind);
        }
    }
}

/// Why a response is refused: where not even the right token would be accepted,
/// the server did not switch, and its first line is named; where it would be,
/// there is no token, or another.
pub proof fn law_refused_for_one_reason(
    head: Seq<String>,
    field: Option<&str>,
    right: &str,
    key: Seq<char>,
    why: ProtocolError,
)
    requires
        right@ == accept_token(key),
    ensures
        refuses(head, field, key, why) <==> match why {
            ProtocolError::DidNotSwitch(status) => !accepts(head, Some(right), key) && (if head.len()
                > 0 {
                status@ == head[0]@
            } else {
                status@.len() == 0
            }),
            ProtocolError::NoAccept => accepts(head, Some(right), key) && field is None,
            ProtocolError::WrongAccept => accepts(head, Some(right), key) && (field matches Some(
                value,
            ) && value@ != right@),
            _ => false,
        },
        accepts(head, field, key) ==> !refuses(head, field, key, why),
{
    if let ProtocolError::DidNotSwitch(status) = why {
        if head.len() == 0 && status@.len() == 0 {
            assert(status@ =~= first_line(head));
        }
    }
}

/// Where the parts of a request stand, whatever they hold.
pub proof fn law_request_holds_its_parts(host: Seq<char>, path: Seq<char>, key: Seq<char>)
    ensures
        ({
            let text = request_text(host, path, key);
            let p = path.len() as int;
            let h = host.len() as int;
            let k = key.len() as int;
            &&& text.len() == 114 + p + h + k
            &&& text.subrange(0, 4) == "GET "@
            &&& text.subrange(4, 4 + p) == path
            &&& text.subrange(4 + p, 21 + p) == " HTTP/1.1\r\nHost: "@
            &&& text.subrange(21 + p, 21 + p + h) == host
            &&& text.subrange(21 + p + h, 83 + p + h)
                == "\r\nUpgrade: websocket\r\nConnection: Upgrade\r\nSec-WebSocket-Key: "@
            &&& text.subrange(83 + p + h, 83 + p + h + k) == key
            &&& text.skip(83 + p + h + k) == "\r\nSec-WebSocket-Version: 13\r\n\r\n"@
        }),
{
    reveal_strlit("GET ");
    reveal_strlit(" HTTP/1.1\r\nHost: ");
    reveal_strlit("\r\nUpgrade: websocket\r\nConnection: Upgrade\r\nSec-WebSocket-Key: ");
    reveal_strlit("\r\nSec-WebSocket-Version: 13\r\n\r\n");
    let text = request_text(host, path, key);
    let p = path.len() as int;
    let h = host.len() as int;
    let k = key.len() as int;
    assert(text.subrange(0, 4) =~= "GET "@);
    assert(text.subrange(4, 4 + p) =~= path);
    assert(text.subrange(4 + p, 21 + p) =~= " HTTP/1.1\r\nHost: "@);
    assert(text.subrange(21 + p, 21 + p + h) =~= host);
    assert(text.subrange(21 + p + h, 83 + p + h)
        =~= "\r\nUpgrade: websocket\r\nConnection: Upgrade\r\nSec-WebSocket-Key: "@);
    assert(text.subrange(83 + p + h, 83 + p + h + k) =~= key);
    assert(text.skip(83 + p + h + k) =~= "\r\nSec-WebSocket-Version: 13\r\n\r\n"@);
}

/// Where the token stands in a response, whatever the key.
pub proof fn law_response_holds_the_token(client_key: Seq<char>)
    ensures
        ({
            let text = response_text(client_key);
            &&& text.len() == 129
            &&& text.take(97)
                == "HTTP/1.1 101 Switching Protocols\r\nUpgrade: websocket\r\nConnection: Upgrade\r\nSec-WebSocket-Accept: "@
            &&& text.subrange(97, 125) == accept_token(client_key)
            &&& text.skip(125) == "\r\n\r\n"@
        }),
{
    reveal_strlit(
        "HTTP/1.1 101 Switching Protocols\r\nUpgrade: websocket\r\nConnection: Upgrade\r\nSec-WebSocket-Accept: ",
    );
    reveal_strlit("\r\n\r\n");
    law_accept_token_is_printable(client_key);
    let text = response_text(client_key);
    assert(text.take(97)
        =~= "HTTP/1.1 101 Switching Protocols\r\nUpgrade: websocket\r\nConnection: Upgrade\r\nSec-WebSocket-Accept: "@);
    assert(text.subrange(97, 125) =~= accept_token(client_key));
    assert(text.skip(125) =~= "\r\n\r\n"@);
}

/// The bytes of a nonce, from the states that the generator runs through: each
/// state is the one before it times a constant plus another, modulo two to the
/// 64th, and gives the eight bits above its lowest 33.
pub proof fn law_nonce_follows_the_generator(seed: u64, states: Seq<u64>)
    requires
        states.len() > 0,
        states[0] == seed,
        forall|i: int| #[trigger]
            vstd::set_lib::set_int_range(0, states.len() - 1).contains(i) ==>
                states[i + 1] == (states[i] * 6_364_136_223_846_793_005
                + 1_442_695_040_888_963_407) % 0x1_0000_0000_0000_0000,
    ensures
        nonce(seed, (states.len() - 1) as nat).len() == states.len() - 1,
        forall|i: int|
            0 <= i < states.len() - 1 ==> #[trigger] nonce(seed, (states.len() - 1) as nat)[i]
                == states[i + 1] / 0x2_0000_0000 % 0x100,
{
    let n = (states.len() - 1) as nat;
    assert forall|i: int| 0 <= i < n implies #[trigger] nonce(seed, n)[i] == states[i + 1]
        / 0x2_0000_0000 % 0x100 by {
        lemma_generated(seed, states, i + 1);
        let v = states[i + 1];
        assert(v >> 33 == v / 0x2_0000_0000) by (bit_vector);
    }
}

/// The generator is where the states say.
proof fn lemma_generated(seed: u64, states: Seq<u64>, n: int)
    requires
        0 <= n < states.len(),
        states[0] == seed,
        forall|i: int| #[trigger]
            vstd::set_lib::set_int_range(0, states.len() - 1).contains(i) ==>
                states[i + 1] == (states[i] * 6_364_136_223_846_793_005
                + 1_442_695_040_888_963_407) % 0x1_0000_0000_0000_0000,
    ensures
        generated(seed, n as nat) == states[n],
    decreases n,
{
    if n > 0 {
        lemma_generated(seed, states, n - 1);
        assert(vstd::set_lib::set_int_range(0, states.len() - 1).contains(n - 1));
        let product = states[n - 1] * 6_364_136_223_846_793_005;
        vstd::arithmetic::div_mod::lemma_add_mod_noop(
            product,
            1_442_695_040_888_963_407,
            0x1_0000_0000_0000_0000,
        );
    }
}

/// The bytes of a nonce for a clock reading are those that the generator gives
/// from the reading's seconds xor nanoseconds, or from a fixed seed where the
/// clock says nothing.
pub proof fn law_nonce_starts_from_the_clock(elapsed: Option<(u64, u32)>, states: Seq<u64>)
    requires
        states.len() > 0,
        states[0] == (match elapsed {
            Some((seconds, nanos)) => seconds ^ (nanos as u64),
            None => 0x9E37_79B9_7F4A_7C15,
        }),
        forall|i: int| #[trigger]
            vstd::set_lib::set_int_range(0, states.len() - 1).contains(i) ==> states[i + 1] == (
            states[i] * 6_364_136_223_846_793_005 + 1_442_695_040_888_963_407)
                % 0x1_0000_0000_0000_0000,
    ensures
        nonce(seed_at(elapsed), (states.len() - 1) as nat).len() == states.len() - 1,
        forall|i: int|
            0 <= i < states.len() - 1 ==> #[trigger] nonce(
                seed_at(elapsed),
                (states.len() - 1) as nat,
            )[i] == states[i + 1] / 0x2_0000_0000 % 0x100,
{
    law_nonce_follows_the_generator(seed_at(elapsed), states);
}

/// The client key for a clock reading is decoded to the sixteen bytes that the
/// generator gives from the reading's seconds xor nanoseconds, or from a fixed
/// seed where the clock says nothing: six groups of four characters, each of the
/// alphabet, spell them and two bytes of padding.
pub proof fn law_client_key_spells_the_nonce(
    elapsed: Option<(u64, u32)>,
    states: Seq<u64>,
    g: int,
)
    requires
        0 <= g < 6,
        states.len() == 17,
        states[0] == (match elapsed {
            Some((seconds, nanos)) => seconds ^ (nanos as u64),
            None => 0x9E37_79B9_7F4A_7C15,
        }),
        forall|i: int| #[trigger]
            vstd::set_lib::set_int_range(0, 16).contains(i) ==>
                states[i + 1] == (states[i] * 6_364_136_223_846_793_005
                + 1_442_695_040_888_963_407) % 0x1_0000_0000_0000_0000,
    ensures
        ({
            let key = key_at(elapsed);
            let alphabet = "ABCDEFGHIJKLMNOPQRSTUVWXYZabcdefghijklmnopqrstuvwxyz0123456789+/"@;
            let v0 = crate::base64::six_bits(key[4 * g]);
            let v1 = crate::base64::six_bits(key[4 * g + 1]);
            let v2 = crate::base64::six_bits(key[4 * g + 2]);
            let v3 = crate::base64::six_bits(key[4 * g + 3]);
            let b0 = states[3 * g + 1] as int / 0x2_0000_0000 % 0x100;
            let b1 = if g < 5 { states[3 * g + 2] as int / 0x2_0000_0000 % 0x100 } else { 0 };
            let b2 = if g < 5 { states[3 * g + 3] as int / 0x2_0000_0000 % 0x100 } else { 0 };
            &&& crate::base64::decoded(key).len() == 16
            &&& forall|i: int|
                0 <= i < 16 ==> #[trigger] crate::base64::decoded(key)[i] == states[i + 1]
                    / 0x2_0000_0000 % 0x100
            &&& key.len() == 24
            &&& key[22] == '=' && key[23] == '='
            &&& key[4 * g] == alphabet[v0]
            &&& key[4 * g + 1] == alphabet[v1]
            &&& g < 5 ==> key[4 * g + 2] == alphabet[v2] && key[4 * g + 3] == alphabet[v3]
            &&& ((v0 * 64 + v1) * 64 + v2) * 64 + v3 == (b0 * 0x100 + b1) * 0x100 + b2
        }),
{
    let random = nonce(seed_at(elapsed), 16);
    law_nonce_follows_the_generator(seed_at(elapsed), states);
    law_client_key_is_printable(elapsed);
    crate::base64::law_base64_decodes(random);
    crate::base64::law_four_characters_spell_three_bytes(random, g);
    crate::base64::law_four_characters_spell_three_bytes(random, 5);
}

/// Two readings whose seeds give different first bytes have different client
/// keys.
pub proof fn law_client_keys_differ_with_the_clock(
    left: Option<(u64, u32)>,
    right: Option<(u64, u32)>,
    l: u64,
    r: u64,
)
    requires
        l == (match left {
            Some((seconds, nanos)) => seconds ^ (nanos as u64),
            None => 0x9E37_79B9_7F4A_7C15,
        }),
        r == (match right {
            Some((seconds, nanos)) => seconds ^ (nanos as u64),
            None => 0x9E37_79B9_7F4A_7C15,
        }),
        (l * 6_364_136_223_846_793_005 + 1_442_695_040_888_963_407) % 0x1_0000_0000_0000_0000
            / 0x2_0000_0000 % 0x100 != (r * 6_364_136_223_846_793_005 + 1_442_695_040_888_963_407)
            % 0x1_0000_0000_0000_0000 / 0x2_0000_0000 % 0x100,
    ensures
        key_at(left) != key_at(right),
{
    lemma_first_byte(l);
    lemma_first_byte(r);
    if key_at(left) == key_at(right) {
        crate::base64::law_base64_tells_data_apart(
            nonce(seed_at(left), 16),
            nonce(seed_at(right), 16),
        );
    }
}

/// The first byte that the generator gives.
proof fn lemma_first_byte(seed: u64)
    ensures
        nonce(seed, 16)[0] == (seed * 6_364_136_223_846_793_005 + 1_442_695_040_888_963_407)
            % 0x1_0000_0000_0000_0000 / 0x2_0000_0000 % 0x100,
{
    let next = ((seed * 6_364_136_223_846_793_005 + 1_442_695_040_888_963_407)
        % 0x1_0000_0000_0000_0000) as u64;
    law_nonce_follows_the_generator(seed, seq![seed, next]);
    assert(nonce(seed, 16)[0] == nonce(seed, 1)[0]);
}

} // verus!
