use rust_server::packet::Packet;

fn packet(user_id: &str, time_stamp: &str, message: &str) -> Packet {
    Packet {
        user_id: String::from(user_id),
        time_stamp: String::from(time_stamp),
        message: String::from(message),
    }
}

#[test]
fn test_packet_serialize() {
    let packet = packet("test", "2021-01-01 00:00:00", "Hello, world!");

    let buf = packet.serialize();

    // 4-byte big-endian length prefix, then the `|`-separated payload.
    assert_eq!(&buf[..4], &[0u8, 0, 0, 38]);
    assert_eq!(
        String::from_utf8_lossy(&buf[4..]),
        "test|2021-01-01 00:00:00|Hello, world!"
    );
}

#[test]
fn test_packet_deserialize() {
    let buf = String::from("test|2021-01-01 00:00:00|Hello, world!").into_bytes();

    let packet = Packet::deserialize(&buf);

    assert_eq!(packet.user_id, "test");
    assert_eq!(packet.time_stamp, "2021-01-01 00:00:00");
    assert_eq!(packet.message, "Hello, world!");
}

#[test]
fn test_packet_deserialize_invalid() {
    let buf = String::from("test|2021-01-01 00:00:00").into_bytes();

    let packet = Packet::deserialize(&buf);

    assert_eq!(packet.user_id, "");
    assert_eq!(packet.time_stamp, "");
    assert_eq!(packet.message, "");
}

#[test]
fn test_packet_deserialize_empty() {
    let buf = String::from("").into_bytes();

    let packet = Packet::deserialize(&buf);

    assert_eq!(packet.user_id, "");
    assert_eq!(packet.time_stamp, "");
    assert_eq!(packet.message, "");
}

#[test]
fn test_round_trip() {
    let original = packet("alice", "t1", "hello");

    let buf = original.serialize();
    let decoded = Packet::deserialize(&buf[4..]);

    assert_eq!(decoded.user_id, "alice");
    assert_eq!(decoded.time_stamp, "t1");
    assert_eq!(decoded.message, "hello");
}

#[test]
fn test_round_trip_empty_fields() {
    let original = packet("a", "", "");

    let buf = original.serialize();
    assert_eq!(&buf[..], b"\x00\x00\x00\x03a||");

    let decoded = Packet::deserialize(&buf[4..]);
    assert_eq!(decoded.user_id, "a");
    assert_eq!(decoded.time_stamp, "");
    assert_eq!(decoded.message, "");
}

#[test]
fn test_round_trip_non_ascii() {
    let original = packet("ülrich", "2021-01-01", "héllo wörld \u{1F600}");

    let buf = original.serialize();
    let decoded = Packet::deserialize(&buf[4..]);

    assert_eq!(decoded.user_id, "ülrich");
    assert_eq!(decoded.time_stamp, "2021-01-01");
    assert_eq!(decoded.message, "héllo wörld \u{1F600}");
}

#[test]
fn test_lenient_decode_no_delimiter() {
    let packet = Packet::deserialize(b"just one field");

    assert_eq!(packet.user_id, "");
    assert_eq!(packet.time_stamp, "");
    assert_eq!(packet.message, "");
}

#[test]
fn test_lenient_decode_one_delimiter() {
    let packet = Packet::deserialize(b"two|fields");

    assert_eq!(packet.user_id, "");
    assert_eq!(packet.time_stamp, "");
    assert_eq!(packet.message, "");
}

#[test]
fn test_lenient_decode_three_delimiters() {
    let packet = Packet::deserialize(b"a|b|c|d");

    assert_eq!(packet.user_id, "");
    assert_eq!(packet.time_stamp, "");
    assert_eq!(packet.message, "");
}

#[test]
fn test_deserialize_invalid_utf8_field() {
    // 0xff is not valid UTF-8; the field decodes to the replacement
    // character, the split itself is unaffected.
    let packet = Packet::deserialize(b"\xff|t|m");

    assert_eq!(packet.user_id, "\u{FFFD}");
    assert_eq!(packet.time_stamp, "t");
    assert_eq!(packet.message, "m");
}
