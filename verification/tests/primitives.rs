use websocket::base64;
use websocket::bytes::{append, from_be, push_be};
use websocket::clock::reading;
use websocket::sha1::digest;
use websocket::text::{chars_of, digit, find, first_number, has_at, second_word, stretch_end, to_decimal, white};

fn hex(bytes: &[u8]) -> String {
    bytes.iter().map(|b| format!("{b:02x}")).collect()
}

#[test]
fn sha1_of_the_published_messages() {
    assert_eq!(hex(&digest(b"")), "da39a3ee5e6b4b0d3255bfef95601890afd80709");
    assert_eq!(hex(&digest(b"abc")), "a9993e364706816aba3e25717850c26c9cd0d89d");
    assert_eq!(
        hex(&digest(b"abcdbcdecdefdefgefghfghighijhijkijkljklmklmnlmnomnopnopq")),
        "84983e441c3bd26ebaae4aa1f95129e5e54670f1"
    );
    assert_eq!(
        hex(&digest(&vec![b'a'; 1_000_000])),
        "34aa973cd4c4daa4f61eeb2bdbad27316534016f"
    );
}

#[test]
fn sha1_around_the_block_boundaries() {
    let of = |n: usize| hex(&digest(&(0..n).map(|i| (i % 251) as u8).collect::<Vec<u8>>()));
    assert_eq!(of(55), "8ae2d46729cfe68ff927af5eec9c7d1b66d65ac2");
    assert_eq!(of(56), "636e2ec698dac903498e648bd2f3af641d3c88cb");
    assert_eq!(of(63), "6d942da0c4392b123528f2905c713a3ce28364bd");
    assert_eq!(of(64), "c6138d514ffa2135bfce0ed0b8fac65669917ec7");
    assert_eq!(of(65), "69bd728ad6e13cd76ff19751fde427b00e395746");
    assert_eq!(of(119), "41c89d06001bab4ab78736b44efe7ce18ce6ae08");
    assert_eq!(of(120), "d3dbd653bd8597b7475321b60a36891278e6a04a");
    assert_eq!(of(1000), "c9c960a0b925474fab83942cc27d504fc24ac37b");
}

#[test]
fn base64_of_the_published_vectors() {
    let cases: [(&[u8], &str); 7] = [
        (b"", ""),
        (b"f", "Zg=="),
        (b"fo", "Zm8="),
        (b"foo", "Zm9v"),
        (b"foob", "Zm9vYg=="),
        (b"fooba", "Zm9vYmE="),
        (b"foobar", "Zm9vYmFy"),
    ];
    for (data, text) in cases {
        assert_eq!(base64::encode(data), text);
    }
}

#[test]
fn base64_uses_its_whole_alphabet() {
    let data = [
        0x00, 0x10, 0x83, 0x10, 0x51, 0x87, 0x20, 0x92, 0x8b, 0x30, 0xd3, 0x8f, 0x41, 0x14, 0x93,
        0x51, 0x55, 0x97, 0x61, 0x96, 0x9b, 0x71, 0xd7, 0x9f, 0x82, 0x18, 0xa3, 0x92, 0x59, 0xa7,
        0xa2, 0x9a, 0xab, 0xb2, 0xdb, 0xaf, 0xc3, 0x1c, 0xb3, 0xd3, 0x5d, 0xb7, 0xe3, 0x9e, 0xbb,
        0xf3, 0xdf, 0xbf,
    ];
    assert_eq!(
        base64::encode(&data),
        "ABCDEFGHIJKLMNOPQRSTUVWXYZabcdefghijklmnopqrstuvwxyz0123456789+/"
    );
}

#[test]
fn base64_text_is_four_characters_for_three_bytes() {
    for n in 0..20 {
        assert_eq!(base64::encode(&vec![0xffu8; n]).len(), (n + 2) / 3 * 4);
    }
}

#[test]
fn big_endian_integers_read_back() {
    let mut out = vec![9];
    push_be(&mut out, 0x0102_0304_0506_0708, 8);
    assert_eq!(out, [9, 1, 2, 3, 4, 5, 6, 7, 8]);
    assert_eq!(from_be(&out[1..]), 0x0102_0304_0506_0708);

    let mut low = Vec::new();
    push_be(&mut low, 0x1_0203, 2);
    assert_eq!(low, [2, 3]);
    assert_eq!(from_be(&[]), 0);
    assert_eq!(from_be(&[0xff; 8]), u64::MAX);

    append(&mut low, b"xy");
    assert_eq!(low, [2, 3, b'x', b'y']);
}

#[test]
fn white_space_is_that_of_unicode() {
    for c in '\0'..=char::MAX {
        assert_eq!(white(c), c.is_whitespace(), "{:x}", c as u32);
    }
}

#[test]
fn the_second_word_is_that_of_std() {
    for line in ["", " ", "one", "one ", " one two", "a\tb c", "HTTP/1.1 101 X", "a\u{3000}\u{e5}b"] {
        assert_eq!(second_word(line), line.split_whitespace().nth(1));
    }
}

#[test]
fn the_first_number_starts_a_word() {
    for (line, number) in [
        ("HTTP/1.1 101 Switching Protocols", "101"),
        ("HTTP/1.1 404 Room 101", "404"),
        ("101", "101"),
        ("a1 b2 \u{e5}\u{3000}34c 5", "34"),
        ("HTTP/1.1", ""),
        ("", ""),
    ] {
        assert_eq!(first_number(line), number);
    }
    for c in '\0'..=char::MAX {
        assert_eq!(digit(c), c.is_ascii_digit());
    }
}

#[test]
fn text_is_searched_by_character() {
    let chars = chars_of("å/b/c");
    assert_eq!(chars, ['å', '/', 'b', '/', 'c']);
    assert_eq!(find(&chars, 0, '/'), 1);
    assert_eq!(find(&chars, 2, '/'), 3);
    assert_eq!(find(&chars, 4, '/'), 5);
    assert!(has_at(&chars, &chars_of("b/"), 2));
    assert!(!has_at(&chars, &chars_of("b/"), 1));
    assert_eq!(stretch_end(&chars_of("  ab c"), 0, true), 2);
    assert_eq!(stretch_end(&chars_of("  ab c"), 2, false), 4);
}

#[test]
fn numbers_are_written_in_decimal() {
    for n in [0, 7, 9, 10, 99, 100, 1009, 67_108_864, usize::MAX] {
        assert_eq!(to_decimal(n), n.to_string());
    }
}

#[test]
fn the_clock_is_past_the_epoch() {
    let (seconds, nanos) = reading().expect("a clock past 1970");
    assert!(seconds > 1_500_000_000);
    assert!(nanos < 1_000_000_000);
}
