use wsframe::frame::{FrameError, OpCode, WebSocketFrame, WebSocketFrameHeader, MAX_PAYLOAD_LEN};

fn payload_of(len: usize) -> Vec<u8> {
    (0..len).map(|i| (i % 251) as u8).collect()
}

fn encode(frame: &WebSocketFrame) -> Vec<u8> {
    let mut out = Vec::new();
    frame.write(&mut out);
    out
}

fn round_trip(len: usize, opcode: OpCode) {
    let payload = payload_of(len);
    let frame = WebSocketFrame::new(&payload, opcode);
    let bytes = encode(&frame);
    let (decoded, used) = WebSocketFrame::read(&bytes).expect("frame decodes");
    assert_eq!(used, bytes.len());
    assert_eq!(decoded.payload, payload);
    assert_eq!(OpCode::from_u8(decoded.header.opcode), Some(opcode));
    assert!(decoded.header.fin);
    assert!(!decoded.header.masked);
    assert_eq!(decoded.mask, None);
}

#[test]
fn round_trip_text_all_tiers() {
    for len in [0usize, 1, 125, 126, 65535, 65536, 70000] {
        round_trip(len, OpCode::TextFrame);
    }
}

#[test]
fn round_trip_binary_all_tiers() {
    for len in [0usize, 1, 125, 126, 65535, 65536, 70000] {
        round_trip(len, OpCode::BinaryFrame);
    }
}

#[test]
fn text_constructor_keeps_utf8_bytes() {
    let frame = WebSocketFrame::text("héllo");
    assert_eq!(frame.payload, "héllo".as_bytes().to_vec());
    assert_eq!(frame.header.opcode, 1);
    let bytes = encode(&frame);
    assert_eq!(bytes[0], 0x81);
    assert_eq!(bytes[1], 6);
    assert_eq!(&bytes[2..], "héllo".as_bytes());
}

#[test]
fn binary_constructor_header() {
    let frame = WebSocketFrame::binary(&[1, 2, 3]);
    assert!(!frame.header.rsv1 && !frame.header.rsv2 && !frame.header.rsv3);
    assert_eq!(encode(&frame), vec![0x82, 3, 1, 2, 3]);
}

#[test]
fn tier_125_has_no_extension() {
    let bytes = encode(&WebSocketFrame::binary(&payload_of(125)));
    assert_eq!(bytes[1] & 0x7f, 125);
    assert_eq!(bytes.len(), 2 + 125);
}

#[test]
fn tier_126_has_two_byte_extension() {
    let bytes = encode(&WebSocketFrame::binary(&payload_of(126)));
    assert_eq!(bytes[1] & 0x7f, 126);
    assert_eq!(&bytes[2..4], &[0x00, 0x7e]);
    assert_eq!(bytes.len(), 4 + 126);
}

#[test]
fn tier_65535_has_two_byte_extension() {
    let bytes = encode(&WebSocketFrame::binary(&payload_of(65535)));
    assert_eq!(bytes[1] & 0x7f, 126);
    assert_eq!(&bytes[2..4], &[0xff, 0xff]);
    assert_eq!(bytes.len(), 4 + 65535);
}

#[test]
fn tier_65536_has_eight_byte_extension() {
    let bytes = encode(&WebSocketFrame::binary(&payload_of(65536)));
    assert_eq!(bytes[1] & 0x7f, 127);
    assert_eq!(&bytes[2..10], &[0, 0, 0, 0, 0, 1, 0, 0]);
    assert_eq!(bytes.len(), 10 + 65536);
}

#[test]
fn determine_len_thresholds() {
    assert_eq!(WebSocketFrameHeader::determine_len(0), 0);
    assert_eq!(WebSocketFrameHeader::determine_len(125), 125);
    assert_eq!(WebSocketFrameHeader::determine_len(126), 126);
    assert_eq!(WebSocketFrameHeader::determine_len(65534), 126);
    assert_eq!(WebSocketFrameHeader::determine_len(65535), 126);
    assert_eq!(WebSocketFrameHeader::determine_len(65536), 127);
    assert_eq!(WebSocketFrameHeader::determine_len(1 << 20), 127);
}

#[test]
fn header_word_packing() {
    let h = WebSocketFrameHeader::new_header(5, 9);
    assert_eq!(WebSocketFrame::serialize_header(&h), 0x8905);
    let back = WebSocketFrame::parse_header(0x8905).expect("known opcode");
    assert_eq!(back, h);
    let masked = WebSocketFrame::parse_header(0x71fe).expect("known opcode");
    assert!(!masked.fin && masked.rsv1 && masked.rsv2 && masked.rsv3);
    assert_eq!(masked.opcode, 1);
    assert!(masked.masked);
    assert_eq!(masked.payload_length, 126);
}

#[test]
fn masking_twice_restores_payload() {
    let original = b"Hello, masked world".to_vec();
    let key = [0x37, 0xfa, 0x21, 0x3d];
    let mut bytes = original.clone();
    WebSocketFrame::apply_mask(key, &mut bytes);
    assert_ne!(bytes, original);
    assert_eq!(bytes[0], b'H' ^ 0x37);
    assert_eq!(bytes[5], b',' ^ 0xfa);
    WebSocketFrame::apply_mask(key, &mut bytes);
    assert_eq!(bytes, original);
}

#[test]
fn masked_frame_is_unmasked_on_decode() {
    // The example from the protocol: a masked "Hello" text frame.
    let bytes = [0x81, 0x85, 0x37, 0xfa, 0x21, 0x3d, 0x7f, 0x9f, 0x4d, 0x51, 0x58];
    let (frame, used) = WebSocketFrame::read(&bytes).expect("frame decodes");
    assert_eq!(used, bytes.len());
    assert_eq!(frame.payload, b"Hello".to_vec());
    assert!(frame.header.masked);
    assert_eq!(frame.mask, Some([0x37, 0xfa, 0x21, 0x3d]));
}

#[test]
fn masked_empty_frame_is_valid() {
    let bytes = [0x89, 0x80, 1, 2, 3, 4];
    let (frame, used) = WebSocketFrame::read(&bytes).expect("frame decodes");
    assert_eq!(used, 6);
    assert!(frame.payload.is_empty());
    assert_eq!(frame.header.opcode, 9);
}

#[test]
fn read_mask_takes_four_bytes_at_offset() {
    let bytes = [9, 9, 1, 2, 3, 4, 9];
    assert_eq!(WebSocketFrame::read_mask(&bytes, 2), Ok([1, 2, 3, 4]));
}

#[test]
fn read_mask_reports_truncated_key() {
    let bytes = [9, 9, 1, 2, 3];
    assert_eq!(WebSocketFrame::read_mask(&bytes, 2), Err(FrameError::TruncatedInput));
    assert_eq!(WebSocketFrame::read_mask(&bytes, 9), Err(FrameError::TruncatedInput));
}

#[test]
fn parse_header_rejects_unknown_opcode() {
    assert_eq!(WebSocketFrame::parse_header(0x8300), Err(FrameError::UnsupportedOpcode));
    assert_eq!(WebSocketFrame::parse_header(0x8b00), Err(FrameError::UnsupportedOpcode));
}

#[test]
fn read_length_each_tier() {
    assert_eq!(WebSocketFrame::read_length(&[0x82, 5]), Ok(5));
    assert_eq!(WebSocketFrame::read_length(&[0x82, 0x80 | 5]), Ok(5));
    assert_eq!(WebSocketFrame::read_length(&[0x82, 126, 0x01, 0x02]), Ok(258));
    assert_eq!(
        WebSocketFrame::read_length(&[0x82, 127, 0, 0, 0, 0, 0, 1, 0x11, 0x70]),
        Ok(70000)
    );
    assert_eq!(WebSocketFrame::read_length(&[0x82, 126, 0x01]), Err(FrameError::TruncatedInput));
    assert_eq!(WebSocketFrame::read_length(&[0x82]), Err(FrameError::TruncatedInput));
}

#[test]
fn read_length_rejects_length_above_cap() {
    let mut bytes = vec![0x82, 127];
    bytes.extend_from_slice(&(MAX_PAYLOAD_LEN + 1).to_be_bytes());
    assert_eq!(WebSocketFrame::read_length(&bytes), Err(FrameError::LengthTooLarge));
    let mut at_cap = vec![0x82, 127];
    at_cap.extend_from_slice(&MAX_PAYLOAD_LEN.to_be_bytes());
    assert_eq!(WebSocketFrame::read_length(&at_cap), Ok(MAX_PAYLOAD_LEN));
}

#[test]
fn read_payload_copies_range() {
    assert_eq!(WebSocketFrame::read_payload(&[1, 2, 3, 4, 5], 1, 4), Ok(vec![2, 3, 4]));
    assert_eq!(WebSocketFrame::read_payload(&[1, 2, 3], 1, 4), Err(FrameError::TruncatedInput));
}

#[test]
fn unknown_opcode_three_is_rejected() {
    let bytes = [0x83, 0x00];
    assert_eq!(WebSocketFrame::read(&bytes).err(), Some(FrameError::UnsupportedOpcode));
}

#[test]
fn reserved_bits_are_rejected() {
    let bytes = [0xc1, 0x00];
    assert_eq!(WebSocketFrame::read(&bytes).err(), Some(FrameError::ReservedBitsSet));
}

#[test]
fn oversized_length_is_rejected() {
    let len = MAX_PAYLOAD_LEN + 1;
    let mut bytes = vec![0x82, 127];
    bytes.extend_from_slice(&len.to_be_bytes());
    assert_eq!(WebSocketFrame::read(&bytes).err(), Some(FrameError::LengthTooLarge));
}

#[test]
fn short_input_is_truncated() {
    assert_eq!(WebSocketFrame::read(&[]).err(), Some(FrameError::TruncatedInput));
    assert_eq!(WebSocketFrame::read(&[0x81]).err(), Some(FrameError::TruncatedInput));
    assert_eq!(WebSocketFrame::read(&[0x81, 126, 0]).err(), Some(FrameError::TruncatedInput));
    assert_eq!(WebSocketFrame::read(&[0x81, 3, 1, 2]).err(), Some(FrameError::TruncatedInput));
}

#[test]
fn trailing_bytes_are_left_for_the_next_frame() {
    let mut bytes = encode(&WebSocketFrame::binary(&[7, 8]));
    bytes.extend_from_slice(&[0x81, 0x01]);
    let (frame, used) = WebSocketFrame::read(&bytes).expect("frame decodes");
    assert_eq!(used, 4);
    assert_eq!(frame.payload, vec![7, 8]);
}

#[test]
fn every_split_of_a_frame_reassembles() {
    let payload = payload_of(300);
    let bytes = encode(&WebSocketFrame::binary(&payload));
    for split in [1usize, 2, 3, 4, 150, bytes.len() - 1] {
        assert_eq!(WebSocketFrame::read(&bytes[..split]).err(), Some(FrameError::TruncatedInput));
        let mut joined = bytes[..split].to_vec();
        joined.extend_from_slice(&bytes[split..]);
        let (frame, used) = WebSocketFrame::read(&joined).expect("frame decodes");
        assert_eq!(used, bytes.len());
        assert_eq!(frame.payload, payload);
    }
}

#[test]
fn opcode_values() {
    assert_eq!(OpCode::Pong.to_u8(), 10);
    assert_eq!(OpCode::from_u8(8), Some(OpCode::ConnectionClose));
    assert_eq!(OpCode::from_u8(0), Some(OpCode::Continuation));
    assert_eq!(OpCode::from_u8(3), None);
    assert_eq!(OpCode::from_u8(11), None);
}
