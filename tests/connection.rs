use scamp::mock::{Expectation, MockClient, MockError};
use scamp::mux::{Connection, MuxError, Reaction, FLOW_WINDOW};
use scamp::proto::{EnvelopeFormat, MessageType, Packet, PacketHeader, PacketType};

fn header() -> PacketHeader {
    PacketHeader {
        action: "a.b".to_string(),
        envelope: EnvelopeFormat::Json,
        error: None,
        error_code: None,
        request_id: 1,
        client_id: 1,
        ticket: String::new(),
        identifying_token: String::new(),
        message_type: MessageType::Reply,
        version: 1,
    }
}

fn packet(t: PacketType, msg_no: u64, body: &[u8]) -> Packet {
    Packet { packet_type: t, msg_no, packet_header: None, body: body.to_vec() }
}

#[test]
fn scenario_b_assembles_a_message() {
    let mut c = Connection::new(3);
    let h = Packet { packet_type: PacketType::Header, msg_no: 7, packet_header: Some(header()), body: vec![] };
    assert!(c.receive(h).unwrap().is_empty());
    assert!(c.receive(packet(PacketType::Data, 7, b"0123456789")).unwrap().is_empty());
    let rs = c.receive(packet(PacketType::Eof, 7, b"")).unwrap();
    assert_eq!(rs.len(), 1);
    match &rs[0] {
        Reaction::Completed(m) => {
            assert_eq!(m.msg_no, 7);
            assert_eq!(m.body, b"0123456789".to_vec());
            assert_eq!(m.header, header());
        },
        _ => panic!("expected a completed message"),
    }
    assert_eq!(c.receive(packet(PacketType::Data, 7, b"x")).unwrap_err(), MuxError::UnknownMessage(7));
}

#[test]
fn receiver_acknowledges_past_half_the_window() {
    let mut c = Connection::new(3);
    let h = Packet { packet_type: PacketType::Header, msg_no: 1, packet_header: Some(header()), body: vec![] };
    c.receive(h).unwrap();
    let half = (FLOW_WINDOW / 2) as usize;
    assert!(c.receive(packet(PacketType::Data, 1, &vec![0u8; half])).unwrap().is_empty());
    let rs = c.receive(packet(PacketType::Data, 1, b"x")).unwrap();
    assert_eq!(rs.len(), 1);
    match &rs[0] {
        Reaction::Send(p) => {
            assert_eq!(p.packet_type, PacketType::Ack);
            assert_eq!(p.msg_no, 1);
            assert_eq!(p.body, format!("{}", half + 1).into_bytes());
        },
        _ => panic!("expected an ACK"),
    }
    assert!(c.receive(packet(PacketType::Data, 1, b"y")).unwrap().is_empty());
}

#[test]
fn sender_stops_at_a_full_window() {
    let mut c = Connection::new(3);
    let h = c.start_message(header()).unwrap();
    assert_eq!(h.packet_type, PacketType::Header);
    let id = h.msg_no;
    assert_eq!(c.start_message(header()).unwrap().msg_no, id + 1);
    let d = c.send_data(id, vec![1u8; 40000]).unwrap();
    assert_eq!(d.packet_type, PacketType::Data);
    assert!(c.can_send(id));
    c.send_data(id, vec![1u8; 30000]).unwrap();
    assert!(!c.can_send(id));
    assert_eq!(c.send_data(id, vec![1u8; 1]).unwrap_err(), MuxError::WindowFull(id));
    // other packets do not reopen the window
    c.receive(packet(PacketType::Ping, 0, b"")).unwrap();
    c.receive(packet(PacketType::Ack, id + 1, b"0")).unwrap();
    assert_eq!(c.send_data(id, vec![1u8; 1]).unwrap_err(), MuxError::WindowFull(id));
    // an ACK past what was sent is a fault; a true one reopens the window
    assert_eq!(c.receive(packet(PacketType::Ack, id, b"70001")).unwrap_err(), MuxError::InvalidAck(id));
    c.receive(packet(PacketType::Ack, id, b"40000")).unwrap();
    assert!(c.can_send(id));
    c.send_data(id, vec![1u8; 10]).unwrap();
    let eof = c.finish_message(id).unwrap();
    assert_eq!(eof.packet_type, PacketType::Eof);
    assert_eq!(c.send_data(id, vec![1u8; 1]).unwrap_err(), MuxError::AlreadyFinished(id));
}

#[test]
fn ping_pong_and_silence() {
    let mut c = Connection::new(2);
    let rs = c.receive(packet(PacketType::Ping, 5, b"")).unwrap();
    match &rs[0] {
        Reaction::Send(p) => assert_eq!((p.packet_type, p.msg_no), (PacketType::Pong, 5)),
        _ => panic!("expected a PONG"),
    }
    let ping = c.heartbeat().unwrap();
    assert_eq!((ping.packet_type, ping.msg_no), (PacketType::Ping, 0));
    c.heartbeat().unwrap();
    assert_eq!(c.heartbeat().unwrap_err(), MuxError::PeerSilent);
    c.receive(packet(PacketType::Pong, 0, b"")).unwrap();
    assert!(c.heartbeat().is_ok());
}

#[test]
fn txerr_and_failure() {
    let mut c = Connection::new(3);
    let id = c.start_message(header()).unwrap().msg_no;
    let rs = c.receive(packet(PacketType::Txerr, id, b"nope")).unwrap();
    match &rs[0] {
        Reaction::Failed { msg_no, reason } => {
            assert_eq!(*msg_no, id);
            assert_eq!(reason, &b"nope".to_vec());
        },
        _ => panic!("expected a failure"),
    }
    assert_eq!(c.send_data(id, vec![1]).unwrap_err(), MuxError::UnknownMessage(id));
    let a = c.start_message(header()).unwrap().msg_no;
    let h = Packet { packet_type: PacketType::Header, msg_no: 40, packet_header: Some(header()), body: vec![] };
    c.receive(h).unwrap();
    let (outs, ins) = c.fail();
    assert_eq!(outs, vec![a]);
    assert_eq!(ins, vec![40]);
    assert_eq!(c.start_message(header()).unwrap_err(), MuxError::Closed);
}

#[test]
fn test_mock_client() {
    let pathver = "foo.bar~1".to_string();
    let req_headers = vec![("content-type".to_string(), "application/json".to_string())];
    let req_body: Vec<u8> = r#"{"operation":"turboencabulate"}"#.into();
    let res_headers = vec![("content-type".to_string(), "application/json".to_string())];
    let res_body: Vec<u8> = r#"{"status":"great", "reframulation_level": 42}"#.into();

    let mut client = MockClient::new();
    client.expect(Expectation {
        pathver: pathver.clone(),
        req_headers: req_headers.clone(),
        req_body: req_body.clone(),
        res_headers,
        res_body: res_body.clone(),
        sleep: None,
    });
    assert_eq!(client.expectation_count(), 1);
    assert!(!client.expectations_met());
    let reply = client.answer("foo.bar~1", &req_headers, &req_body).unwrap();
    assert_eq!(reply.body, res_body);
    assert_eq!(reply.headers, vec![("content-type".to_string(), "application/json".to_string())]);
    assert!(client.expectations_met());
    assert_eq!(client.answer("foo.bar~1", &req_headers, &req_body).err(), Some(MockError::NoExpectation));
}

#[test]
fn mock_client_checks_requests() {
    let mut client = MockClient::new();
    for _ in 0..2 {
        client.expect(Expectation {
            pathver: "x~1".to_string(),
            req_headers: vec![],
            req_body: b"a".to_vec(),
            res_headers: vec![],
            res_body: vec![],
            sleep: Some(5),
        });
    }
    let wrong = vec![("k".to_string(), "v".to_string())];
    assert_eq!(client.answer("x~1", &wrong, b"a").err(), Some(MockError::HeadersMismatch));
    assert_eq!(client.answer("x~1", &vec![], b"b").err(), Some(MockError::BodyMismatch));
    assert_eq!(client.expectation_count(), 0);
    client.clear();
    assert!(client.expectations_met());
}

#[test]
fn abandoning_frees_only_that_message() {
    let mut c = Connection::new(3);
    let a = c.start_message(header()).unwrap().msg_no;
    let b = c.start_message(header()).unwrap().msg_no;
    c.abandon(a);
    assert_eq!(c.send_data(a, vec![1]).unwrap_err(), MuxError::UnknownMessage(a));
    assert!(c.send_data(b, vec![1]).is_ok());
}
