use squawkbus::codec::{
    read_entitlements, read_headers, read_packet, read_packets, write_entitlements, write_headers,
    write_packet, write_packets,
};
use squawkbus::message::DataPacket;
use squawkbus::wire::{read_i32, read_str, read_u32, write_i32, write_str, write_u32};

#[test]
fn should_roundtrip_u32() {
    let mut buf: Vec<u8> = Vec::new();
    let actual: u32 = 12345678;
    write_u32(&mut buf, actual);
    match read_u32(&buf, 0) {
        Ok((expected, _)) => assert_eq!(actual, expected),
        Err(error) => panic!("Failed to serialize: {:?}", error),
    }
}

#[test]
fn should_roundtrip_pos_i32() {
    let mut buf: Vec<u8> = Vec::new();
    let actual: i32 = 12345678;
    write_i32(&mut buf, actual);
    match read_i32(&buf, 0) {
        Ok((expected, _)) => assert_eq!(actual, expected),
        Err(error) => panic!("Failed to serialize: {:?}", error),
    }
}

#[test]
fn should_roundtrip_neg_i32() {
    let mut buf: Vec<u8> = Vec::new();
    let actual: i32 = -12345678;
    write_i32(&mut buf, actual);
    match read_i32(&buf, 0) {
        Ok((expected, _)) => assert_eq!(actual, expected),
        Err(error) => panic!("Failed to serialize: {:?}", error),
    }
}

#[test]
fn should_roundtrip_string() {
    let mut buf: Vec<u8> = Vec::new();
    let actual = String::from("Hello, World!");
    write_str(&mut buf, &actual).expect("should serialize");
    match read_str(&buf, 0) {
        Ok((expected, _)) => assert_eq!(actual, expected),
        Err(error) => panic!("Failed to serialize: {:?}", error),
    }
}

#[test]
fn should_roundtrip_i32_hash_set() {
    let mut buf: Vec<u8> = Vec::new();
    let actual: Vec<i32> = vec![-10000, -100, -10, -1, 0, 1, 10, 100, 1000, 10000];
    write_entitlements(&mut buf, &actual).expect("should serialize");
    match read_entitlements(&buf, 0) {
        Ok((expected, _)) => assert_eq!(actual, expected),
        Err(error) => panic!("Failed to serialize: {:?}", error),
    }
}

#[test]
fn should_roundtrip_i32_hash_map() {
    let mut buf: Vec<u8> = Vec::new();
    let actual: Vec<(String, String)> = vec![
        ("a".to_string(), "one".to_string()),
        ("b".to_string(), "two".to_string()),
    ];
    write_headers(&mut buf, &actual).expect("should serialize");
    match read_headers(&buf, 0) {
        Ok((expected, _)) => assert_eq!(actual, expected),
        Err(error) => panic!("Failed to serialize: {:?}", error),
    }
}

#[test]
fn should_roundtrip_datapacket() {
    let actual = DataPacket {
        entitlements: vec![1],
        headers: vec![("Content-Type".to_string(), "text/plain".to_string())],
        data: "Hello, World!".into(),
    };
    let mut buf: Vec<u8> = Vec::new();
    write_packet(&mut buf, &actual).expect("should serialize");
    match read_packet(&buf, 0) {
        Ok((expected, _)) => assert_eq!(actual, expected),
        Err(error) => panic!("Failed to serialize: {:?}", error),
    }
}

#[test]
fn should_roundtrip_vec_datapacket() {
    let actual = vec![
        DataPacket {
            entitlements: vec![1],
            headers: vec![("Content-Type".to_string(), "text/plain".to_string())],
            data: "Data 1".into(),
        },
        DataPacket {
            entitlements: vec![2],
            headers: vec![("Content-Type".to_string(), "text/plain".to_string())],
            data: "Data 2".into(),
        },
    ];
    let mut buf: Vec<u8> = Vec::new();
    write_packets(&mut buf, &actual).expect("should serialize");
    match read_packets(&buf, 0) {
        Ok((expected, _)) => assert_eq!(actual, expected),
        Err(error) => panic!("Failed to serialize: {:?}", error),
    }
}

#[test]
fn check_is_authorized() {
    let data_packet = DataPacket {
        entitlements: vec![1],
        headers: vec![("Content-Type".to_string(), "text/plain".to_string())],
        data: "Data 1".into(),
    };
    let has_entitlement = vec![1i32];
    assert!(data_packet.is_authorized(&has_entitlement));
    let wrong_entitlements = vec![2i32];
    assert!(!data_packet.is_authorized(&wrong_entitlements));
    let empty_entitlements: Vec<i32> = Vec::new();
    assert!(!data_packet.is_authorized(&empty_entitlements));
}

#[test]
fn u32_is_big_endian() {
    let mut buf: Vec<u8> = Vec::new();
    write_u32(&mut buf, 0x01020304);
    assert_eq!(buf, vec![1, 2, 3, 4]);
    let mut buf: Vec<u8> = Vec::new();
    write_i32(&mut buf, -2);
    assert_eq!(buf, vec![0xff, 0xff, 0xff, 0xfe]);
}

#[test]
fn string_is_length_then_utf8() {
    let mut buf: Vec<u8> = Vec::new();
    write_str(&mut buf, "hé").expect("should serialize");
    assert_eq!(buf, vec![0, 0, 0, 3, b'h', 0xc3, 0xa9]);
}

#[test]
fn empty_packet_set_is_authorized_by_anything() {
    let packet = DataPacket::new(Vec::new(), Vec::new(), vec![1, 2]);
    assert!(packet.is_authorized(&Vec::new()));
    assert_eq!(packet.copy(), packet);
}
