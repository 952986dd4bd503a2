use rust_server::packet::Packet;
use rust_server::packet_factory::PacketFactory;

fn packet(user_id: &str, time_stamp: &str, message: &str) -> Packet {
    Packet {
        user_id: String::from(user_id),
        time_stamp: String::from(time_stamp),
        message: String::from(message),
    }
}

#[test]
fn test_packet_factory() {
    let mut packet_factory = PacketFactory::new();

    let packet = packet("test", "test", "test");

    let serialized_packet = packet.serialize();

    packet_factory.push(&serialized_packet);

    let mut seen = 0;
    while let Some(packet) = packet_factory.next() {
        assert_eq!(packet.user_id, "test");
        assert_eq!(packet.time_stamp, "test");
        assert_eq!(packet.message, "test");
        seen += 1;
    }
    assert_eq!(seen, 1);
}

#[test]
fn test_packet_factory_100() {
    let mut packet_factory = PacketFactory::new();

    for _ in 0..100 {
        let packet = packet("test", "test", "test");

        let serialized_packet = packet.serialize();

        packet_factory.push(&serialized_packet);
    }

    let mut seen = 0;
    while let Some(packet) = packet_factory.next() {
        assert_eq!(packet.user_id, "test");
        seen += 1;
    }
    assert_eq!(seen, 100);
}

#[test]
fn test_incomplete_frame_waits() {
    let mut factory = PacketFactory::new();
    let frame = packet("a", "b", "c").serialize();

    // Everything but the last byte: no frame yet.
    factory.push(&frame[..frame.len() - 1]);
    assert!(factory.next().is_none());

    // The last byte completes it.
    factory.push(&frame[frame.len() - 1..]);
    let got = factory.next().expect("frame should be complete now");
    assert_eq!(got.user_id, "a");
    assert_eq!(got.time_stamp, "b");
    assert_eq!(got.message, "c");
    assert!(factory.next().is_none());
}

#[test]
fn test_chunk_independence() {
    // Two frames, then a partial third; however the stream is chunked, the
    // same packets come out in the same order, and the partial frame stays.
    let mut stream: Vec<u8> = Vec::new();
    stream.extend_from_slice(&packet("u1", "t1", "first").serialize());
    stream.extend_from_slice(&packet("u2", "t2", "second").serialize());
    let partial = packet("u3", "t3", "third").serialize();
    stream.extend_from_slice(&partial[..5]);

    let mut whole = PacketFactory::new();
    let expected = whole.ingest(&stream);
    assert_eq!(expected.len(), 2);

    for cut in 0..=stream.len() {
        let mut factory = PacketFactory::new();
        let mut got = factory.ingest(&stream[..cut]);
        got.extend(factory.ingest(&stream[cut..]));

        assert_eq!(got.len(), expected.len(), "cut at {}", cut);
        for (g, e) in got.iter().zip(expected.iter()) {
            assert_eq!(g.user_id, e.user_id);
            assert_eq!(g.time_stamp, e.time_stamp);
            assert_eq!(g.message, e.message);
        }
    }
}

#[test]
fn test_ingest_many_frames_one_chunk() {
    let mut stream: Vec<u8> = Vec::new();
    for i in 0..10 {
        stream.extend_from_slice(&packet("u", "t", &format!("msg {}", i)).serialize());
    }

    let mut factory = PacketFactory::new();
    let got = factory.ingest(&stream);

    assert_eq!(got.len(), 10);
    for (i, p) in got.iter().enumerate() {
        assert_eq!(p.message, format!("msg {}", i));
    }
}

#[test]
fn test_empty_payload_frame() {
    // A declared length of zero is a complete frame with an empty payload,
    // which decodes leniently to the sentinel.
    let mut factory = PacketFactory::new();
    factory.push(&[0, 0, 0, 0]);

    let got = factory.next().expect("zero-length frame is complete");
    assert_eq!(got.user_id, "");
    assert_eq!(got.time_stamp, "");
    assert_eq!(got.message, "");
    assert!(factory.next().is_none());
}

#[test]
fn test_malformed_payload_is_sentinel_not_error() {
    // A framed payload that does not split into three fields still comes out
    // as a packet (the sentinel); the stream keeps going.
    let mut factory = PacketFactory::new();
    factory.push(&[0, 0, 0, 3]);
    factory.push(b"abc");
    factory.push(&packet("x", "y", "z").serialize());

    let first = factory.next().expect("malformed frame still decodes");
    assert_eq!(first.user_id, "");
    assert_eq!(first.time_stamp, "");
    assert_eq!(first.message, "");

    let second = factory.next().expect("stream continues after sentinel");
    assert_eq!(second.user_id, "x");
    assert!(factory.next().is_none());
}
