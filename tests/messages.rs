use squawkbus::codec::{decode, encode};
use squawkbus::frame::{frame_length, frame_message, FrameReader, FrameWriter};
use squawkbus::message::{DataPacket, Message, MessageType, SubscriptionRequest};
use squawkbus::wire::CodecError;

fn round_trip(initial: &Message) -> Message {
    let bytes = encode(initial).expect("should serialize");
    assert_eq!(bytes.len(), initial.size());
    decode(&bytes).expect("should deserialize")
}

fn packet(data: &str) -> DataPacket {
    DataPacket {
        headers: vec![("Content-Type".to_string(), "text/plain".to_string())],
        entitlements: vec![1],
        data: data.into(),
    }
}

#[test]
fn should_round_trip_authentication_request() {
    let initial = Message::AuthenticationRequest {
        method: "basic".into(),
        credentials: "mary".into(),
    };
    assert_eq!(initial, round_trip(&initial));
}

#[test]
fn should_roundtrip_authentication_response() {
    let initial = Message::AuthenticationResponse {
        client_id: "67e55044-10b1-426f-9247-bb680e5fe0c8".into(),
    };
    assert_eq!(initial, round_trip(&initial));
}

#[test]
fn should_roundtrip_forwarded_multicast_data() {
    let initial = Message::ForwardedMulticastData {
        host: "host1".into(),
        user: "mary".into(),
        topic: "VOD LSE".into(),
        data_packets: vec![packet("Hello, World!")],
    };
    assert_eq!(initial, round_trip(&initial));
}

#[test]
fn should_roundtrip_forwarded_subscription_request() {
    let initial = Message::ForwardedSubscriptionRequest {
        host: "host1".into(),
        user: "mary".into(),
        client_id: "67e55044-10b1-426f-9247-bb680e5fe0c8".into(),
        topic: "VOD LSE".into(),
        count: 1,
    };
    assert_eq!(initial, round_trip(&initial));
}

#[test]
fn should_roundtrip_forwarded_unicast_data() {
    let initial = Message::ForwardedUnicastData {
        host: "host1".into(),
        user: "mary".into(),
        client_id: "67e55044-10b1-426f-9247-bb680e5fe0c8".into(),
        topic: "VOD LSE".into(),
        data_packets: vec![packet("Hello, World!")],
    };
    assert_eq!(initial, round_trip(&initial));
}

#[test]
fn should_roundtrip_multicast_data() {
    let initial = Message::MulticastData {
        topic: "VOD LSE".into(),
        data_packets: vec![packet("Hello, World!")],
    };
    assert_eq!(initial, round_trip(&initial));
}

#[test]
fn should_roundtrip_subscription_request() {
    let initial = Message::SubscriptionRequest {
        topic: "VOD LSE".into(),
        is_add: true,
    };
    assert_eq!(initial, round_trip(&initial));
}

#[test]
fn should_roundtrip_unicast_data() {
    let initial = Message::UnicastData {
        client_id: "67e55044-10b1-426f-9247-bb680e5fe0c8".into(),
        topic: "VOD LSE".into(),
        data_packets: vec![packet("Hello, World!")],
    };
    assert_eq!(initial, round_trip(&initial));
}

#[test]
fn subscription_request_layout() {
    let m = Message::SubscriptionRequest { topic: "ab".into(), is_add: true };
    assert_eq!(encode(&m).unwrap(), vec![7, 0, 0, 0, 2, b'a', b'b', 1]);
    let m = SubscriptionRequest { topic: "ab".into(), is_add: false };
    assert_eq!(m.message_type(), MessageType::SubscriptionRequest);
    assert_eq!(encode(&m.into_message()).unwrap(), vec![7, 0, 0, 0, 2, b'a', b'b', 0]);
}

#[test]
fn any_byte_but_one_is_false() {
    assert_eq!(
        decode(&[7, 0, 0, 0, 1, b'x', 2]).unwrap(),
        Message::SubscriptionRequest { topic: "x".into(), is_add: false }
    );
}

#[test]
fn type_tags_are_fixed() {
    assert_eq!(MessageType::AuthenticationRequest.to_byte(), 1);
    assert_eq!(MessageType::ForwardedUnicastData.to_byte(), 9);
    assert_eq!(MessageType::from_byte(6), Some(MessageType::NotificationRequest));
    assert_eq!(MessageType::from_byte(10), None);
    assert_eq!(MessageType::from_byte(0), None);
}

#[test]
fn decode_errors() {
    assert_eq!(decode(&[]), Err(CodecError::Truncated));
    assert_eq!(decode(&[7, 0, 0]), Err(CodecError::Truncated));
    assert_eq!(decode(&[42]), Err(CodecError::UnknownMessageType));
    assert_eq!(decode(&[6, 0, 0, 0, 0, 1]), Err(CodecError::UnknownMessageType));
    assert_eq!(decode(&[2, 0, 0, 0, 1, 0xff]), Err(CodecError::InvalidUtf8));
    assert_eq!(decode(&[7, 0, 0, 0, 1, b'x', 1, 9]), Err(CodecError::TrailingBytes));
}

#[test]
fn frames_carry_their_length() {
    let m = Message::AuthenticationResponse { client_id: "id".into() };
    let frame = frame_message(&m).unwrap();
    assert_eq!(frame_length(&frame[0..4]), Ok(7));
    assert_eq!(decode(&frame[4..]).unwrap(), m);
    assert_eq!(frame_length(&[0, 0]), Err(CodecError::Truncated));
}

#[test]
fn frame_writer_packs_its_parts() {
    let mut w = FrameWriter::new();
    w.push(vec![1, 2]).unwrap();
    w.push(vec![3]).unwrap();
    assert_eq!(w.pack(), vec![0, 0, 0, 3, 1, 2, 3]);
    let w = FrameWriter::from(vec![9]).unwrap();
    let mut r = FrameReader::from(&w);
    assert_eq!(r.take(4).unwrap(), vec![0, 0, 0, 1]);
    assert_eq!(r.take(2), Err(CodecError::Truncated));
    assert_eq!(r.take(1).unwrap(), vec![9]);
}

#[test]
fn decoded_packets_are_sets_and_maps() {
    // entitlements [1, 1, 2]; headers a=1, b=2, a=3; data empty
    let bytes = vec![
        3, 0, 0, 0, 1, b'T', 0, 0, 0, 1, // multicast on "T", one packet
        0, 0, 0, 3, 0, 0, 0, 1, 0, 0, 0, 1, 0, 0, 0, 2, // entitlements
        0, 0, 0, 3, // three headers
        0, 0, 0, 1, b'a', 0, 0, 0, 1, b'1', //
        0, 0, 0, 1, b'b', 0, 0, 0, 1, b'2', //
        0, 0, 0, 1, b'a', 0, 0, 0, 1, b'3', //
        0, 0, 0, 0, // no data
    ];
    assert_eq!(
        decode(&bytes).unwrap(),
        Message::MulticastData {
            topic: "T".into(),
            data_packets: vec![DataPacket {
                entitlements: vec![1, 2],
                headers: vec![("b".into(), "2".into()), ("a".into(), "3".into())],
                data: Vec::new(),
            }],
        }
    );
}
