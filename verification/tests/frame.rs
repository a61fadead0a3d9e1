use websocket::error::ProtocolError;
use websocket::frame;
use websocket::frame::{
    encode, mask, mask_key, mask_key_at, payload_length, read, FrameError, FrameReader, Progress,
    ReadStep, TooLong,
};

/// What the readers in these tests take.
const LIMIT: usize = 1 << 20;

#[test]
fn a_masked_frame_reads_back_as_it_was_written() {
    let mut wire = Vec::new();
    frame::write(&mut wire, b"ping over ws", true);

    assert_eq!(read(&wire, LIMIT).expect("reading").0, b"ping over ws");
}

#[test]
fn an_unmasked_frame_reads_back_too() {
    let mut wire = Vec::new();
    frame::write(&mut wire, &[0x00, 0x01, 0xfe, 0xff], false);

    assert_eq!(
        read(&wire, LIMIT).expect("reading").0,
        [0x00, 0x01, 0xfe, 0xff]
    );
}

#[test]
fn a_payload_at_the_two_byte_length_boundary_survives() {
    // 200 bytes forces the 126 extended-length path.
    let payload = vec![0x5au8; 200];
    let mut wire = Vec::new();
    frame::write(&mut wire, &payload, true);

    assert_eq!(read(&wire, LIMIT).expect("reading").0, payload);
}

#[test]
fn an_unmasked_frame_has_these_bytes() {
    assert_eq!(encode(b"Hello", None), [0x82, 0x05, 0x48, 0x65, 0x6c, 0x6c, 0x6f]);
}

#[test]
fn a_masked_frame_has_these_bytes() {
    assert_eq!(
        encode(b"Hello", Some([0x37, 0xfa, 0x21, 0x3d])),
        [0x82, 0x85, 0x37, 0xfa, 0x21, 0x3d, 0x7f, 0x9f, 0x4d, 0x51, 0x58]
    );
}

#[test]
fn every_length_field_starts_and_ends_where_it_should() {
    let head = |n: usize| encode(&vec![0u8; n], None);
    assert_eq!(head(0), [0x82, 0]);
    assert_eq!(head(125)[..2], [0x82, 125]);
    assert_eq!(head(126)[..4], [0x82, 126, 0x00, 0x7e]);
    assert_eq!(head(255)[..4], [0x82, 126, 0x00, 0xff]);
    assert_eq!(head(256)[..4], [0x82, 126, 0x01, 0x00]);
    assert_eq!(head(65535)[..4], [0x82, 126, 0xff, 0xff]);
    assert_eq!(head(65536)[..10], [0x82, 127, 0, 0, 0, 0, 0, 1, 0, 0]);
}

#[test]
fn frames_of_every_length_read_back_and_leave_the_rest() {
    for n in [0, 1, 3, 4, 5, 125, 126, 127, 128, 255, 256, 65535, 65536, 70000] {
        let payload: Vec<u8> = (0..n).map(|i| (i * 7 % 256) as u8).collect();
        for key in [None, Some([0, 0, 0, 0]), Some([0xde, 0xad, 0xbe, 0xef])] {
            let mut wire = encode(&payload, key);
            let length = wire.len();
            wire.extend_from_slice(b"more");
            assert_eq!(read(&wire, LIMIT), Ok((payload.clone(), length)));
        }
    }
}

#[test]
fn the_first_byte_is_not_looked_at() {
    assert_eq!(read(&[0x00, 0x01, 0x09], LIMIT), Ok((vec![9], 3)));
}

#[test]
fn a_longer_length_field_than_needed_is_read() {
    assert_eq!(read(&[0x82, 126, 0, 1, 9], LIMIT), Ok((vec![9], 5)));
    assert_eq!(read(&[0x82, 127, 0, 0, 0, 0, 0, 0, 0, 1, 9], LIMIT), Ok((vec![9], 11)));
}

#[test]
fn a_cut_frame_ends_in_the_step_that_it_ends_in() {
    let wire = encode(&vec![1u8; 300], Some([1, 2, 3, 4]));
    for kept in 0..wire.len() {
        let step = match kept {
            0..=1 => ReadStep::Header,
            2..=3 => ReadStep::ExtendedLength,
            4..=7 => ReadStep::MaskKey,
            _ => ReadStep::Payload,
        };
        assert_eq!(read(&wire[..kept], LIMIT), Err(FrameError::Ended(step)));
    }
}

#[test]
fn a_frame_over_the_limit_is_refused_before_its_key() {
    let wire = encode(&[0u8; 11], Some([0; 4]));
    let refused = TooLong { length: 11, limit: 10 };
    assert_eq!(read(&wire, 10), Err(FrameError::TooLong(refused)));
    assert_eq!(read(&wire[..2], 10), Err(FrameError::TooLong(refused)));
    assert!(read(&wire, 11).is_ok());
    assert_eq!(
        ProtocolError::FrameTooLong(refused).message(),
        "a frame of 11 bytes, over the 10 byte limit"
    );
}

#[test]
fn the_greatest_length_is_refused() {
    let wire = [0x82, 0xff, 0xff, 0xff, 0xff, 0xff, 0xff, 0xff, 0xff, 0xff];
    assert_eq!(
        read(&wire, LIMIT),
        Err(FrameError::TooLong(TooLong { length: usize::MAX, limit: LIMIT }))
    );
}

#[test]
fn masking_twice_gives_the_payload_back() {
    let payload: Vec<u8> = (0..=255).collect();
    let key = [0x12, 0x00, 0xff, 0x80];
    let hidden = mask(&payload, key);
    assert_eq!(hidden[..5], [0x12, 0x01, 0xfd, 0x83, 0x16]);
    assert_eq!(mask(&hidden, key), payload);
}

#[test]
fn a_mask_key_spells_the_nanoseconds() {
    assert_eq!(mask_key_at(Some((77, 0x0102_0304))), [1, 2, 3, 4]);
    assert_eq!(mask_key_at(None), [0x12, 0x34, 0x56, 0x78]);
}

#[test]
fn the_mask_key_comes_from_within_a_second() {
    assert!(u32::from_be_bytes(mask_key()) < 1_000_000_000);
}

#[test]
fn a_written_frame_is_masked_where_it_is_asked_to_be() {
    let mut wire = vec![0xaa];
    frame::write(&mut wire, b"abc", false);
    assert_eq!(wire, [0xaa, 0x82, 3, b'a', b'b', b'c']);

    let mut wire = Vec::new();
    frame::write(&mut wire, b"abc", true);
    assert_eq!(wire.len(), 9);
    assert_eq!(wire[1], 0x83);
}

#[test]
fn a_reader_says_what_it_needs() {
    let wire = encode(&vec![7u8; 300], Some([9, 8, 7, 6]));
    let mut reader = FrameReader::new(LIMIT);
    let mut at = 0;
    let mut steps = Vec::new();
    let payload = loop {
        let n = reader.need();
        steps.push((reader.step().describe(), n));
        let piece = &wire[at..at + n];
        at += n;
        match reader.feed(piece).expect("within the limit") {
            Progress::More(next) => reader = next,
            Progress::Complete(payload) => break payload,
        }
    };
    assert_eq!(payload, vec![7u8; 300]);
    assert_eq!(
        steps,
        [
            ("reading a frame header", 2),
            ("reading the extended length", 2),
            ("reading the mask key", 4),
            ("reading the frame payload", 300),
        ]
    );
}

#[test]
fn a_declared_length_is_held_to_the_limit() {
    assert_eq!(payload_length(0, 0), Ok(0));
    assert_eq!(payload_length(10, 10), Ok(10));
    assert_eq!(payload_length(11, 10), Err(TooLong { length: 11, limit: 10 }));
    assert_eq!(
        payload_length(u64::MAX, 10),
        Err(TooLong { length: usize::MAX, limit: 10 })
    );
}
