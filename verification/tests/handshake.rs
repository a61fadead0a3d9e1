use websocket::error::ProtocolError;
use websocket::handshake::{
    accept, accept_key, client_key, client_key_at, client_key_of, nonce_from, pseudo_random,
    pseudo_random_at, request_path, send_request, verify_response,
};

fn head(lines: &[&str]) -> Vec<String> {
    lines.iter().map(|line| line.to_string()).collect()
}

#[test]
fn accept_matches_the_rfc_6455_example() {
    // The exact key and accept from RFC 6455 section 1.3.
    assert_eq!(
        accept_key("dGhlIHNhbXBsZSBub25jZQ=="),
        "s3pPLMBiTxaQ9kYGzzhZRbK+xOo="
    );
}

#[test]
fn every_accept_token_has_one_length() {
    for key in ["", "å", "dGhlIHNhbXBsZSBub25jZQ==", "\r\n"] {
        let token = accept_key(key);
        assert_eq!(token.len(), 28);
        assert!(token.chars().all(|c| ('!'..='~').contains(&c)));
    }
    assert_ne!(accept_key("a"), accept_key("b"));
}

#[test]
fn the_path_is_the_second_word_of_the_request_line() {
    assert_eq!(request_path(&head(&["GET /feed HTTP/1.1", "Host: h"])), "/feed");
    assert_eq!(request_path(&head(&["GET /feed"])), "/feed");
    assert_eq!(request_path(&head(&["  GET\t /a\u{2003}HTTP/1.1"])), "/a");
    assert_eq!(request_path(&head(&["GET å/b c"])), "å/b");
}

#[test]
fn a_request_line_without_a_path_asks_for_the_root() {
    assert_eq!(request_path(&[]), "/");
    assert_eq!(request_path(&head(&[""])), "/");
    assert_eq!(request_path(&head(&["GET"])), "/");
    assert_eq!(request_path(&head(&["GET  "])), "/");
    assert_eq!(request_path(&head(&["   "])), "/");
}

#[test]
fn the_path_is_found_as_std_finds_words() {
    for line in ["a b c", " a  b ", "\u{a0}x\u{3000}y", "one", "", "\r\n", "a\u{85}b", "a\u{200b}b c"] {
        let expected = line.split_whitespace().nth(1).unwrap_or("/");
        assert_eq!(request_path(&head(&[line])), expected);
    }
}

#[test]
fn a_request_without_a_key_is_refused() {
    assert_eq!(client_key_of(Some("abc")), Ok("abc".to_string()));
    assert_eq!(client_key_of(None), Err(ProtocolError::NoKey));
    assert_eq!(
        ProtocolError::NoKey.message(),
        "a websocket request with no Sec-WebSocket-Key"
    );
}

#[test]
fn a_nonce_follows_from_its_seed() {
    assert_eq!(nonce_from(0, 4), [191, 8, 17, 116]);
    assert_eq!(
        pseudo_random_at(Some((1_700_000_000, 123_456_789)), 16),
        [66, 100, 61, 31, 195, 204, 33, 254, 98, 125, 143, 248, 123, 183, 138, 152]
    );
    assert_eq!(pseudo_random_at(None, 3), [16, 166, 37]);
    assert_eq!(client_key_at(None), "EKYloervBlJI1+GQCk3zOQ==");
    assert!(nonce_from(5, 0).is_empty());
}

#[test]
fn a_client_key_is_sixteen_bytes_in_base64() {
    assert_eq!(pseudo_random(16).len(), 16);
    assert_eq!(pseudo_random(4).len(), 4);
    let key = client_key();
    assert_eq!(key.len(), 24);
    assert!(key.ends_with("=="));
}

#[test]
fn a_request_has_these_bytes() {
    let mut wire = b"..".to_vec();
    send_request(&mut wire, "example.com", "/feed", "abc");
    assert_eq!(
        String::from_utf8(wire).expect("text"),
        "..GET /feed HTTP/1.1\r\n\
         Host: example.com\r\n\
         Upgrade: websocket\r\n\
         Connection: Upgrade\r\n\
         Sec-WebSocket-Key: abc\r\n\
         Sec-WebSocket-Version: 13\r\n\r\n"
    );
}

#[test]
fn a_response_has_these_bytes() {
    let mut wire = Vec::new();
    accept(&mut wire, "dGhlIHNhbXBsZSBub25jZQ==");
    assert_eq!(
        String::from_utf8(wire).expect("text"),
        "HTTP/1.1 101 Switching Protocols\r\n\
         Upgrade: websocket\r\n\
         Connection: Upgrade\r\n\
         Sec-WebSocket-Accept: s3pPLMBiTxaQ9kYGzzhZRbK+xOo=\r\n\r\n"
    );
}

#[test]
fn a_response_with_the_right_token_is_taken() {
    let token = accept_key("key");
    let lines = head(&["HTTP/1.1 101 Switching Protocols"]);
    assert_eq!(verify_response(&lines, Some(&token), "key"), Ok(()));
}

#[test]
fn a_response_that_does_not_switch_is_refused() {
    let token = accept_key("key");
    let lines = head(&["HTTP/1.1 403 Forbidden"]);
    let refused = verify_response(&lines, Some(&token), "key").expect_err("refused");
    assert_eq!(refused, ProtocolError::DidNotSwitch("HTTP/1.1 403 Forbidden".to_string()));
    assert_eq!(refused.message(), "the server did not switch: HTTP/1.1 403 Forbidden");

    let refused = verify_response(&[], None, "key").expect_err("refused");
    assert_eq!(refused.message(), "the server did not switch: ");
}

#[test]
fn only_the_status_code_says_that_the_server_switches() {
    let key = "dGhlIHNhbXBsZSBub25jZQ==";
    let token = "s3pPLMBiTxaQ9kYGzzhZRbK+xOo=";
    for status in [
        "HTTP/1.1 404 Room 101",
        "HTTP/1.1 1101 X",
        "HTTP/1.1 1010 X",
        "HTTP/1.1 200 101",
        "HTTP/1.101 200 OK",
        "HTTP/1.1 404: Room 101",
        "404 Room 101",
        "1101 X",
        "",
    ] {
        let lines = head(&[status, "Sec-WebSocket-Accept: s3pPLMBiTxaQ9kYGzzhZRbK+xOo="]);
        assert_eq!(
            verify_response(&lines, Some(token), key),
            Err(ProtocolError::DidNotSwitch(status.to_string()))
        );
    }
    for status in [
        "HTTP/1.1 101 Switching Protocols",
        "HTTP/1.1 101",
        "HTTP/1.0  101 ",
        "HTTP/1.1 101: Room 404",
        "101 Switching Protocols",
        "101",
        " 101",
    ] {
        assert_eq!(verify_response(&head(&[status]), Some(token), key), Ok(()));
    }
}

#[test]
fn a_response_without_a_token_is_refused() {
    let lines = head(&["HTTP/1.1 101 Switching Protocols"]);
    let refused = verify_response(&lines, None, "key").expect_err("refused");
    assert_eq!(refused, ProtocolError::NoAccept);
    assert_eq!(refused.message(), "a 101 with no Sec-WebSocket-Accept");
}

#[test]
fn a_response_with_another_token_is_refused() {
    let lines = head(&["HTTP/1.1 101 Switching Protocols"]);
    let other = accept_key("other");
    let refused = verify_response(&lines, Some(&other), "key").expect_err("refused");
    assert_eq!(refused, ProtocolError::WrongAccept);
    assert_eq!(refused.message(), "the server's accept token did not match the key");
}
