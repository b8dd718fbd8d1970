use scamp::proto::{
    EnvelopeFormat, FrameError, FrameReader, MessageType, Packet, PacketHeader, PacketType,
    ParseResult, MAX_PACKET_SIZE,
};

fn header() -> PacketHeader {
    PacketHeader {
        action: "product.sku.fetch".to_string(),
        envelope: EnvelopeFormat::Json,
        error: None,
        error_code: Some("E42".to_string()),
        request_id: 12,
        client_id: -3,
        ticket: "tk".to_string(),
        identifying_token: "id".to_string(),
        message_type: MessageType::Request,
        version: 1,
    }
}

fn packet(t: PacketType, msg_no: u64, body: &[u8]) -> Packet {
    Packet { packet_type: t, msg_no, packet_header: None, body: body.to_vec() }
}

fn parse_success(buf: &[u8]) -> (Packet, usize) {
    match Packet::parse(buf) {
        ParseResult::Success { packet, bytes_used } => (packet, bytes_used),
        ParseResult::TooShort => panic!("TooShort"),
        ParseResult::NeedBytes { bytes } => panic!("NeedBytes {}", bytes),
        ParseResult::Drop { bytes_used } => panic!("Drop {}", bytes_used),
        ParseResult::Fatal(e) => panic!("Fatal {:?}", e),
    }
}

#[test]
fn it_works() {
    assert_eq!(2 + 2, 4);
}

#[test]
fn encode_writes_the_frame_format() {
    let p = packet(PacketType::Data, 7, b"hello");
    assert_eq!(p.encode(), b"DATA 7 5\r\nhelloEND\r\n".to_vec());
    let e = packet(PacketType::Eof, 18446744073709551615, b"");
    assert_eq!(e.encode(), b"EOF 18446744073709551615 0\r\nEND\r\n".to_vec());
}

#[test]
fn round_trip_of_each_type() {
    let types = [
        PacketType::Data,
        PacketType::Eof,
        PacketType::Txerr,
        PacketType::Ack,
        PacketType::Ping,
        PacketType::Pong,
    ];
    for (i, t) in types.iter().enumerate() {
        let body: Vec<u8> = (0..(i * 37)).map(|k| (k * 13) as u8).collect();
        let p = packet(*t, 1000 + i as u64, &body);
        let bytes = p.encode();
        let (q, used) = parse_success(&bytes);
        assert_eq!(used, bytes.len());
        assert_eq!(q.packet_type, *t);
        assert_eq!(q.msg_no, 1000 + i as u64);
        assert!(q.packet_header.is_none());
        assert_eq!(q.body, body);
    }
    let big = vec![0xffu8; MAX_PACKET_SIZE];
    let p = packet(PacketType::Data, 1, &big);
    let (q, _) = parse_success(&p.encode());
    assert_eq!(q.body.len(), MAX_PACKET_SIZE);
}

#[test]
fn round_trip_of_header() {
    let h = header();
    let p = Packet { packet_type: PacketType::Header, msg_no: 9, packet_header: Some(h.clone()), body: vec![] };
    let bytes = p.encode();
    assert!(bytes.starts_with(b"HEADER 9 "));
    let (q, used) = parse_success(&bytes);
    assert_eq!(used, bytes.len());
    assert_eq!(q.packet_type, PacketType::Header);
    assert_eq!(q.msg_no, 9);
    assert_eq!(q.packet_header, Some(h));
    assert!(q.body.is_empty());
    let other = PacketHeader {
        envelope: EnvelopeFormat::Other("extdirect".to_string()),
        message_type: MessageType::Reply,
        error: Some("boom".to_string()),
        ..header()
    };
    let p = Packet { packet_type: PacketType::Header, msg_no: 1, packet_header: Some(other.clone()), body: vec![] };
    let (q, _) = parse_success(&p.encode());
    assert_eq!(q.packet_header, Some(other));
}

#[test]
fn header_json_as_serde_writes_it() {
    let text = br#"{"action":"a.b","envelope":"JsonStore","error":null,"request_id":1,"client_id":2,"ticket":"t","identifying_token":"i","message_type":"Reply","version":3,"extra":true}"#;
    let mut frame = format!("HEADER 4 {}\r\n", text.len()).into_bytes();
    frame.extend_from_slice(text);
    frame.extend_from_slice(b"END\r\n");
    let (q, _) = parse_success(&frame);
    let h = q.packet_header.unwrap();
    assert_eq!(h.action, "a.b");
    assert_eq!(h.envelope, EnvelopeFormat::JsonStore);
    assert_eq!(h.error, None);
    assert_eq!(h.error_code, None);
    assert_eq!(h.client_id, 2);
    assert_eq!(h.message_type, MessageType::Reply);
    assert_eq!(h.version, 3);
}

#[test]
fn header_that_is_not_a_header_is_dropped() {
    let frame = b"HEADER 1 2\r\n{}END\r\n";
    match Packet::parse(frame) {
        ParseResult::Drop { bytes_used } => assert_eq!(bytes_used, frame.len()),
        _ => panic!("expected Drop"),
    }
    let frame = b"HEADER 1 3\r\nnotEND\r\n";
    assert!(matches!(Packet::parse(frame), ParseResult::Drop { bytes_used: 20 }));
}

#[test]
fn unknown_type_is_dropped() {
    match Packet::parse(b"FOO 1 0\r\nEND\r\n") {
        ParseResult::Drop { bytes_used } => assert_eq!(bytes_used, 14),
        _ => panic!("expected Drop"),
    }
    // The blank line before the trailer makes the trailer malformed.
    match Packet::parse(b"FOO 1 0\r\n\r\nEND\r\n") {
        ParseResult::Fatal(e) => assert_eq!(e, FrameError::MalformedTrailer),
        _ => panic!("expected Fatal"),
    }
}

#[test]
fn unknown_non_ascii_type_is_dropped() {
    let frame = "DÉTA 1 0\r\nEND\r\n".as_bytes();
    match Packet::parse(frame) {
        ParseResult::Drop { bytes_used } => assert_eq!(bytes_used, frame.len()),
        _ => panic!("expected Drop"),
    }
}

#[test]
fn header_bytes_are_fixed() {
    let p = Packet { packet_type: PacketType::Header, msg_no: 3, packet_header: Some(header()), body: vec![] };
    let text = br#"{"action":"product.sku.fetch","client_id":-3,"envelope":"Json","error":null,"error_code":"E42","identifying_token":"id","message_type":"Request","request_id":12,"ticket":"tk","version":1}"#;
    let mut expected = format!("HEADER 3 {}\r\n", text.len()).into_bytes();
    expected.extend_from_slice(text);
    expected.extend_from_slice(b"END\r\n");
    assert_eq!(p.encode(), expected);
}

#[test]
fn incomplete_frames_ask_for_more() {
    assert!(matches!(Packet::parse(b""), ParseResult::TooShort));
    assert!(matches!(Packet::parse(b"DATA 1 5\r"), ParseResult::TooShort));
    assert!(matches!(Packet::parse(b"DATA 1 5\r\nhel"), ParseResult::NeedBytes { bytes: 7 }));
    let mut buf = format!("DATA 1 {}\r\n", MAX_PACKET_SIZE).into_bytes();
    let header_len = buf.len();
    buf.extend(vec![b'x'; 30]);
    match Packet::parse(&buf) {
        ParseResult::NeedBytes { bytes } => assert_eq!(bytes, MAX_PACKET_SIZE - 30 + 5),
        _ => panic!("expected NeedBytes"),
    }
    buf.extend(vec![b'x'; MAX_PACKET_SIZE - 30]);
    buf.extend_from_slice(b"END\r\n");
    let (q, used) = parse_success(&buf);
    assert_eq!(used, header_len + MAX_PACKET_SIZE + 5);
    assert_eq!(q.body.len(), MAX_PACKET_SIZE);
}

#[test]
fn fatal_frames() {
    let mut big = b"DATA 1 131100\r\n".to_vec();
    big.extend(vec![b'x'; 30]);
    assert!(matches!(Packet::parse(&big), ParseResult::Fatal(FrameError::TooLarge)));
    assert!(matches!(Packet::parse(b"DATA 1\r\n"), ParseResult::Fatal(FrameError::MalformedHeaderLine)));
    assert!(matches!(Packet::parse(b"DATA x 0\r\nEND\r\n"), ParseResult::Fatal(FrameError::InvalidMessageNumber)));
    assert!(matches!(Packet::parse(b"DATA 1 -1\r\nEND\r\n"), ParseResult::Fatal(FrameError::InvalidSize)));
    assert!(matches!(Packet::parse(b"DATA 1 0\nEND\r\n"), ParseResult::Fatal(FrameError::MalformedHeaderLine)));
    assert!(matches!(Packet::parse(b"DAT\xff 1 0\r\nEND\r\n"), ParseResult::Fatal(FrameError::InvalidText)));
    assert!(matches!(Packet::parse(b"DATA 1 2\r\nabENDXX"), ParseResult::Fatal(FrameError::MalformedTrailer)));
    assert!(matches!(Packet::parse(&[b'A'; 40]), ParseResult::Fatal(FrameError::MalformedHeaderLine)));
    assert!(matches!(Packet::parse(b"DATA 99999999999999999999 0\r\nEND\r\n"), ParseResult::Fatal(FrameError::InvalidMessageNumber)));
}

fn stream() -> (Vec<u8>, usize) {
    let mut bytes = Vec::new();
    bytes.extend(packet(PacketType::Data, 1, b"abc").encode());
    bytes.extend(b"ZAP 5 2\r\nzzEND\r\n");
    bytes.extend(Packet { packet_type: PacketType::Header, msg_no: 2, packet_header: Some(header()), body: vec![] }.encode());
    bytes.extend(packet(PacketType::Ping, 0, b"").encode());
    bytes.extend(packet(PacketType::Eof, 1, b"").encode());
    (bytes, 4)
}

#[test]
fn reader_is_independent_of_chunk_boundaries() {
    let (bytes, n) = stream();
    let mut whole = FrameReader::new();
    let (all, fault) = whole.feed(&bytes);
    assert!(fault.is_none());
    assert_eq!(all.len(), n);
    let kinds: Vec<PacketType> = all.iter().map(|p| p.packet_type).collect();
    assert_eq!(kinds, vec![PacketType::Data, PacketType::Header, PacketType::Ping, PacketType::Eof]);
    for cut in 0..=bytes.len() {
        let mut reader = FrameReader::new();
        let (mut got, f1) = reader.feed(&bytes[..cut]);
        let (more, f2) = reader.feed(&bytes[cut..]);
        assert!(f1.is_none() && f2.is_none());
        got.extend(more);
        assert_eq!(got.len(), n);
        for (a, b) in got.iter().zip(all.iter()) {
            assert_eq!(a.packet_type, b.packet_type);
            assert_eq!(a.msg_no, b.msg_no);
            assert_eq!(a.body, b.body);
            assert_eq!(a.packet_header, b.packet_header);
        }
    }
    let mut bytewise = FrameReader::new();
    let mut got = Vec::new();
    for b in &bytes {
        let (more, f) = bytewise.feed(std::slice::from_ref(b));
        assert!(f.is_none());
        got.extend(more);
    }
    assert_eq!(got.len(), n);
}

#[test]
fn reader_stops_at_a_fault() {
    let mut reader = FrameReader::new();
    let mut bytes = packet(PacketType::Data, 1, b"ok").encode();
    bytes.extend(b"DATA 1 1\r\nxBAD\r\n");
    let (got, fault) = reader.feed(&bytes);
    assert_eq!(got.len(), 1);
    assert_eq!(fault, Some(FrameError::MalformedTrailer));
}
