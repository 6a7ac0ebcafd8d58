use coap_codec::error::CoapError;
use coap_codec::header::{MessageClass, MessageType, RequestType, ResponseType};
use coap_codec::packet::{CoapOption, ContentFormat, ObserveOption, Packet};

#[test]
fn test_decode_packet_with_options() {
    let buf = [
        0x44, 0x01, 0x84, 0x9e, 0x51, 0x55, 0x77, 0xe8, 0xb2, 0x48, 0x69, 0x04, 0x54, 0x65, 0x73,
        0x74, 0x43, 0x61, 0x3d, 0x31,
    ];
    let packet = Packet::from_bytes(&buf);
    assert!(packet.is_ok());
    let packet = packet.unwrap();
    assert_eq!(packet.header.get_version(), 1);
    assert_eq!(packet.header.get_type(), MessageType::Confirmable);
    assert_eq!(packet.header.get_token_length(), 4);
    assert_eq!(packet.header.code, MessageClass::Request(RequestType::Get));
    assert_eq!(packet.header.get_message_id(), 33950);
    assert_eq!(*packet.get_token(), vec![0x51, 0x55, 0x77, 0xE8]);
    assert_eq!(packet.options().len(), 2);

    let uri_path = packet.get_option(CoapOption::UriPath);
    assert!(uri_path.is_some());
    let uri_path = uri_path.unwrap();
    let expected_uri_path = vec!["Hi".as_bytes().to_vec(), "Test".as_bytes().to_vec()];
    assert_eq!(*uri_path, expected_uri_path);

    let uri_query = packet.get_option(CoapOption::UriQuery);
    assert!(uri_query.is_some());
    let uri_query = uri_query.unwrap();
    let expected_uri_query = vec!["a=1".as_bytes().to_vec()];
    assert_eq!(*uri_query, expected_uri_query);
}

#[test]
fn test_decode_packet_with_payload() {
    let buf = [
        0x64, 0x45, 0x13, 0xFD, 0xD0, 0xE2, 0x4D, 0xAC, 0xFF, 0x48, 0x65, 0x6C, 0x6C, 0x6F,
    ];
    let packet = Packet::from_bytes(&buf);
    assert!(packet.is_ok());
    let packet = packet.unwrap();
    assert_eq!(packet.header.get_version(), 1);
    assert_eq!(packet.header.get_type(), MessageType::Acknowledgement);
    assert_eq!(packet.header.get_token_length(), 4);
    assert_eq!(
        packet.header.code,
        MessageClass::Response(ResponseType::Content)
    );
    assert_eq!(packet.header.get_message_id(), 5117);
    assert_eq!(*packet.get_token(), vec![0xD0, 0xE2, 0x4D, 0xAC]);
    assert_eq!(packet.payload, "Hello".as_bytes().to_vec());
}

#[test]
fn test_encode_packet_with_options() {
    let mut packet = Packet::new();
    packet.header.set_version(1);
    packet.header.set_type(MessageType::Confirmable);
    packet.header.code = MessageClass::Request(RequestType::Get);
    packet.header.set_message_id(33950);
    packet.set_token(vec![0x51, 0x55, 0x77, 0xE8]);
    packet.add_option(CoapOption::UriPath, b"Hi".to_vec());
    packet.add_option(CoapOption::UriPath, b"Test".to_vec());
    packet.add_option(CoapOption::UriQuery, b"a=1".to_vec());
    assert_eq!(
        packet.to_bytes().unwrap(),
        vec![
            0x44, 0x01, 0x84, 0x9e, 0x51, 0x55, 0x77, 0xe8, 0xb2, 0x48, 0x69, 0x04, 0x54, 0x65,
            0x73, 0x74, 0x43, 0x61, 0x3d, 0x31
        ]
    );
}

#[test]
fn test_encode_packet_with_payload() {
    let mut packet = Packet::new();
    packet.header.set_version(1);
    packet.header.set_type(MessageType::Acknowledgement);
    packet.header.code = MessageClass::Response(ResponseType::Content);
    packet.header.set_message_id(5117);
    packet.set_token(vec![0xD0, 0xE2, 0x4D, 0xAC]);
    packet.payload = "Hello".as_bytes().to_vec();
    assert_eq!(
        packet.to_bytes().unwrap(),
        vec![0x64, 0x45, 0x13, 0xFD, 0xD0, 0xE2, 0x4D, 0xAC, 0xFF, 0x48, 0x65, 0x6C, 0x6C, 0x6F]
    );
}

#[test]
fn test_encode_decode_content_format() {
    let mut packet = Packet::new();
    packet.set_content_format(ContentFormat::ApplicationJSON);
    assert_eq!(
        ContentFormat::ApplicationJSON,
        packet.get_content_format().unwrap()
    )
}

#[test]
fn test_decode_empty_content_format() {
    let packet = Packet::new();
    assert!(packet.get_content_format().is_none());
}

#[test]
fn boundary_value_lengths_select_the_right_tier() {
    // Lengths 12 and 13 sit on each side of the one-byte extension
    // boundary, 268 and 269 on each side of the two-byte one.
    let cases: Vec<(usize, Vec<u8>)> = vec![
        (12, vec![0xBC]),
        (13, vec![0xBD, 0x00]),
        (268, vec![0xBD, 0xFF]),
        (269, vec![0xBE, 0x00, 0x00]),
    ];
    for (len, option_header) in cases {
        let mut packet = Packet::new();
        packet.header.code = MessageClass::Request(RequestType::Get);
        packet.add_option(CoapOption::UriPath, vec![0xAB; len]);
        let bytes = packet.to_bytes().unwrap();
        // Fixed header, then the option record: UriPath is number 11, so
        // the delta nibble is 0xB; the length tier follows.
        let mut expected = vec![0x40, 0x01, 0x00, 0x00];
        expected.extend_from_slice(&option_header);
        expected.extend_from_slice(&vec![0xAB; len]);
        assert_eq!(bytes, expected);

        let back = Packet::from_bytes(&bytes).unwrap();
        let values = back.get_option(CoapOption::UriPath).unwrap();
        assert_eq!(values.len(), 1);
        assert_eq!(values[0].len(), len);
        assert_eq!(values[0], vec![0xAB; len]);
    }
}

#[test]
fn two_byte_delta_round_trips_through_decode_and_encode() {
    // One option record with delta 269 and an empty value: the smallest
    // delta that needs the two-byte extension tier.
    let buf = vec![0x40, 0x01, 0x00, 0x00, 0xE0, 0x00, 0x00];
    let packet = Packet::from_bytes(&buf).unwrap();
    assert_eq!(packet.options().len(), 1);
    assert_eq!(packet.options().number_at(0), 269);
    assert_eq!(packet.to_bytes().unwrap(), buf);
}

#[test]
fn delta_nibble_fifteen_is_rejected() {
    let buf = [0x40, 0x01, 0x00, 0x00, 0xF0];
    assert_eq!(Packet::from_bytes(&buf).unwrap_err(), CoapError::InvalidOptionDelta);
}

#[test]
fn length_nibble_fifteen_is_rejected() {
    let buf = [0x40, 0x01, 0x00, 0x00, 0x0F];
    assert_eq!(Packet::from_bytes(&buf).unwrap_err(), CoapError::InvalidOptionLength);
}

#[test]
fn truncated_prefixes_fail_cleanly_or_decode_as_payloadless() {
    let buf = [
        0x44, 0x01, 0x84, 0x9e, 0x51, 0x55, 0x77, 0xe8, 0xb2, 0x48, 0x69, 0x04, 0x54, 0x65, 0x73,
        0x74, 0x43, 0x61, 0x3d, 0x31,
    ];
    for cut in 0..buf.len() {
        // Every prefix must yield a clean result, never a crash.
        let _ = Packet::from_bytes(&buf[..cut]);
    }
    // Shorter than the fixed header.
    assert_eq!(Packet::from_bytes(&buf[..3]).unwrap_err(), CoapError::InvalidHeader);
    // The declared token does not fit.
    assert_eq!(Packet::from_bytes(&buf[..6]).unwrap_err(), CoapError::InvalidTokenLength);
    // Header and token exactly: a valid, option-less, payload-less message.
    let headless = Packet::from_bytes(&buf[..8]).unwrap();
    assert_eq!(headless.options().len(), 0);
    assert!(headless.payload.is_empty());
    // Cut inside an option value.
    assert_eq!(Packet::from_bytes(&buf[..10]).unwrap_err(), CoapError::InvalidOptionLength);
    // Cut right after an option header byte that promises an extension.
    let ext = [0x40, 0x01, 0x00, 0x00, 0xD0];
    assert_eq!(Packet::from_bytes(&ext).unwrap_err(), CoapError::InvalidOptionLength);
}

#[test]
fn declared_token_length_over_eight_is_rejected() {
    let buf = [
        0x49, 0x01, 0x00, 0x00, 0x01, 0x02, 0x03, 0x04, 0x05, 0x06, 0x07, 0x08, 0x09,
    ];
    assert_eq!(Packet::from_bytes(&buf).unwrap_err(), CoapError::InvalidTokenLength);
}

#[test]
fn lone_trailing_marker_means_empty_payload() {
    let buf = [0x40, 0x01, 0x00, 0x00, 0xFF];
    let packet = Packet::from_bytes(&buf).unwrap();
    assert!(packet.payload.is_empty());
    assert_eq!(packet.options().len(), 0);
}

#[test]
fn oversized_packet_is_refused_at_the_ceiling() {
    let mut packet = Packet::new();
    packet.header.code = MessageClass::Request(RequestType::Get);
    // 4 header bytes + marker + 1275 payload bytes come to exactly 1280.
    packet.set_payload(vec![0x55; 1275]);
    assert!(packet.to_bytes().is_ok());
    packet.set_payload(vec![0x55; 1276]);
    assert_eq!(packet.to_bytes().unwrap_err(), CoapError::InvalidPacketLength);
}

#[test]
fn empty_class_payload_is_neither_emitted_nor_counted() {
    // The empty class carries no marker and no payload, so a stored
    // payload neither reaches the wire nor counts toward the ceiling.
    let mut packet = Packet::new();
    packet.set_payload(vec![0x55; 1277]);
    assert_eq!(packet.to_bytes().unwrap(), vec![0x40, 0x00, 0x00, 0x00]);
}

#[test]
fn too_wide_key_gap_is_refused_on_encode() {
    // Keys 6 and 65810 decode fine: the gap between them is exactly the
    // two-byte ceiling. Clearing key 6 leaves the encoder a gap of 65810
    // from its running number 0, which no delta tier can carry.
    let buf = [0x40, 0x01, 0x00, 0x00, 0x60, 0xE0, 0xFF, 0xFF];
    let mut packet = Packet::from_bytes(&buf).unwrap();
    assert_eq!(packet.to_bytes().unwrap().to_vec(), buf.to_vec());
    packet.clear_option(CoapOption::Observe);
    assert_eq!(packet.to_bytes().unwrap_err(), CoapError::InvalidOptionDelta);
}

#[test]
fn options_added_out_of_order_encode_in_ascending_key_order() {
    let mut packet = Packet::new();
    packet.header.code = MessageClass::Request(RequestType::Get);
    packet.add_option(CoapOption::UriQuery, b"q".to_vec());
    packet.add_option(CoapOption::UriPath, b"p".to_vec());
    packet.add_option(CoapOption::IfMatch, b"m".to_vec());
    assert_eq!(packet.options().number_at(0), 1);
    assert_eq!(packet.options().number_at(1), 11);
    assert_eq!(packet.options().number_at(2), 15);
    let bytes = packet.to_bytes().unwrap();
    // Deltas 1, 10, 4 in that order, each with a one-byte value.
    assert_eq!(
        bytes,
        vec![0x40, 0x01, 0x00, 0x00, 0x11, 0x6D, 0xA1, 0x70, 0x41, 0x71]
    );
    let back = Packet::from_bytes(&bytes).unwrap();
    assert_eq!(back.options().len(), 3);
    assert_eq!(*back.get_option(CoapOption::IfMatch).unwrap(), vec![b"m".to_vec()]);
    assert_eq!(*back.get_option(CoapOption::UriPath).unwrap(), vec![b"p".to_vec()]);
    assert_eq!(*back.get_option(CoapOption::UriQuery).unwrap(), vec![b"q".to_vec()]);
}

#[test]
fn set_get_and_clear_option_behave_as_a_multimap() {
    let mut packet = Packet::new();
    assert!(packet.get_option(CoapOption::ETag).is_none());
    packet.add_option(CoapOption::ETag, vec![1]);
    packet.add_option(CoapOption::ETag, vec![2]);
    assert_eq!(
        *packet.get_option(CoapOption::ETag).unwrap(),
        vec![vec![1], vec![2]]
    );
    packet.set_option(CoapOption::ETag, vec![vec![9]]);
    assert_eq!(*packet.get_option(CoapOption::ETag).unwrap(), vec![vec![9]]);
    packet.clear_option(CoapOption::ETag);
    // Cleared, not removed: the key still answers, with no values.
    assert_eq!(
        *packet.get_option(CoapOption::ETag).unwrap(),
        Vec::<Vec<u8>>::new()
    );
}

#[test]
fn observe_option_is_set_and_read_back() {
    let mut packet = Packet::new();
    assert!(packet.get_observe().is_none());
    packet.set_observe(vec![0]);
    assert_eq!(*packet.get_observe().unwrap(), vec![0]);
    packet.set_observe(vec![1]);
    assert_eq!(*packet.get_observe().unwrap(), vec![1]);
    assert_eq!(ObserveOption::from_u8(0), Some(ObserveOption::Register));
    assert_eq!(ObserveOption::from_u8(1), Some(ObserveOption::Deregister));
    assert_eq!(ObserveOption::from_u8(2), None);
}

#[test]
fn content_format_numbers_round_trip() {
    assert_eq!(ContentFormat::TextPlain.to_u16(), 0);
    assert_eq!(ContentFormat::ApplicationJSON.to_u16(), 50);
    assert_eq!(ContentFormat::ApplicationSensmlXML.to_u16(), 311);
    assert_eq!(ContentFormat::from_u16(50), Some(ContentFormat::ApplicationJSON));
    assert_eq!(ContentFormat::from_u16(1), None);
    // A one-byte value cannot carry the two-byte number.
    let mut packet = Packet::new();
    packet.add_option(CoapOption::ContentFormat, vec![0x01]);
    assert!(packet.get_content_format().is_none());
}

#[test]
fn programmatic_round_trip_with_token_options_and_payload() {
    let mut packet = Packet::new();
    packet.header.set_version(1);
    packet.header.set_type(MessageType::NonConfirmable);
    packet.header.code = MessageClass::Request(RequestType::Post);
    packet.header.set_message_id(4660);
    packet.set_token(vec![0xDE, 0xAD]);
    packet.add_option(CoapOption::UriPath, b"sensors".to_vec());
    packet.add_option(CoapOption::UriPath, b"temp".to_vec());
    packet.set_content_format(ContentFormat::TextPlain);
    packet.set_payload(b"22.5 C".to_vec());
    let bytes = packet.to_bytes().unwrap();
    let back = Packet::from_bytes(&bytes).unwrap();
    assert_eq!(back.header.get_version(), 1);
    assert_eq!(back.header.get_type(), MessageType::NonConfirmable);
    assert_eq!(back.header.code, MessageClass::Request(RequestType::Post));
    assert_eq!(back.header.get_message_id(), 4660);
    assert_eq!(*back.get_token(), vec![0xDE, 0xAD]);
    assert_eq!(
        *back.get_option(CoapOption::UriPath).unwrap(),
        vec![b"sensors".to_vec(), b"temp".to_vec()]
    );
    assert_eq!(back.get_content_format(), Some(ContentFormat::TextPlain));
    assert_eq!(back.payload, b"22.5 C".to_vec());
}
