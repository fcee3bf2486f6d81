use fox_sharing::frame::{
    read_frame, write_frame, FrameError, FrameStep, HEADER_SIZE, MAX_FRAME_SIZE, PROTOCOL_MAGIC,
};

#[test]
fn a_frame_gives_back_its_payload() {
    let frame = write_frame(&[1, 2, 3]).unwrap();
    assert_eq!(frame, vec![0x46, 0x4f, 0x58, 0x53, 0, 0, 0, 3, 1, 2, 3]);
    assert_eq!(read_frame(&frame), FrameStep::Payload(vec![1, 2, 3]));
}

#[test]
fn the_header_spells_foxs() {
    assert_eq!(PROTOCOL_MAGIC.to_be_bytes(), *b"FOXS");
    assert_eq!(HEADER_SIZE, 8);
    assert_eq!(MAX_FRAME_SIZE, 67_108_864);
}

#[test]
fn an_empty_payload_has_a_frame() {
    let frame = write_frame(&[]).unwrap();
    assert_eq!(frame, b"FOXS\0\0\0\0".to_vec());
    assert_eq!(read_frame(&frame), FrameStep::Payload(Vec::new()));
}

#[test]
fn the_length_is_big_endian() {
    let payload = vec![7u8; 0x01_02_03];
    let frame = write_frame(&payload).unwrap();
    assert_eq!(frame[4..8], [0, 1, 2, 3]);
    assert_eq!(read_frame(&frame), FrameStep::Payload(payload));
}

#[test]
fn a_reader_asks_for_what_is_missing() {
    let frame = write_frame(&[9, 8, 7, 6]).unwrap();
    for have in 0..frame.len() {
        let expected = if have < 8 { 8 - have } else { frame.len() - have };
        assert_eq!(read_frame(&frame[..have]), FrameStep::Need(expected));
    }
}

#[test]
fn bytes_behind_a_frame_are_left_alone() {
    let mut bytes = write_frame(b"one").unwrap();
    bytes.extend_from_slice(&write_frame(b"two").unwrap());
    assert_eq!(read_frame(&bytes), FrameStep::Payload(b"one".to_vec()));
}

#[test]
fn another_magic_number_is_refused() {
    let step = read_frame(b"FOXT\0\0\0\0");
    assert_eq!(step, FrameStep::Bad(FrameError::InvalidMagic));
    assert_eq!(FrameError::InvalidMagic.message(), "invalid protocol magic");
}

#[test]
fn an_announced_length_above_the_limit_is_refused() {
    let step = read_frame(&[0x46, 0x4f, 0x58, 0x53, 4, 0, 0, 1]);
    assert_eq!(step, FrameStep::Bad(FrameError::Oversized(67_108_865)));
    assert_eq!(FrameError::Oversized(67_108_865).message(), "frame too large: 67108865 bytes");
    assert_eq!(
        read_frame(&[0x46, 0x4f, 0x58, 0x53, 0xff, 0xff, 0xff, 0xff]),
        FrameStep::Bad(FrameError::Oversized(u32::MAX))
    );
}

#[test]
fn a_payload_at_the_limit_travels_and_one_above_does_not() {
    let payload = vec![5u8; MAX_FRAME_SIZE + 1];
    assert_eq!(write_frame(&payload), Err(FrameError::TooLarge));
    assert_eq!(FrameError::TooLarge.message(), "frame too large");
    let frame = write_frame(&payload[..MAX_FRAME_SIZE]).unwrap();
    assert_eq!(frame.len(), MAX_FRAME_SIZE + 8);
    assert_eq!(frame[4..8], [4, 0, 0, 0]);
    assert_eq!(read_frame(&frame[..8]), FrameStep::Need(MAX_FRAME_SIZE));
}
