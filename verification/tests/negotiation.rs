use ppproto::frame_reader::FrameReader;
use ppproto::frame_writer::FrameWriter;
use ppproto::options::{parse_options, PacketOption, State, StateMachine};
use ppproto::table::{Rule, TableProtocol, TableRule};
use ppproto::Error;

/// Feed `bytes` to a fresh reader, retrieving every completed frame.
fn deframe_all(bytes: &[u8]) -> Vec<Vec<u8>> {
    let mut r = FrameReader::new();
    let mut buf = vec![0u8; 1024];
    let mut frames: Vec<Vec<u8>> = Vec::new();
    let mut rest: &[u8] = bytes;
    loop {
        let n = r.consume(&mut buf, rest);
        rest = &rest[n..];
        match r.receive() {
            Some(rg) => frames.push(buf[rg].to_vec()),
            None => {
                assert!(rest.is_empty());
                break;
            }
        }
    }
    frames
}

fn emitted(w: FrameWriter) -> Vec<Vec<u8>> {
    let (buf, n) = w.into_buffer();
    deframe_all(&buf[..n])
}

fn fresh_writer() -> FrameWriter {
    FrameWriter::new(vec![0u8; 1024])
}

/// A protocol negotiating under 0xC021 that requests option 5 = [1, 2]
/// and accepts peer option 5.
fn lcp_like() -> TableProtocol {
    TableProtocol {
        id: 0xC021,
        own: vec![PacketOption { code: 5, data: vec![1, 2] }],
        rules: vec![TableRule { code: 5, rule: Rule::Accept }],
    }
}

#[test]
fn open_sends_one_configure_request_with_id_2() {
    let mut sm = StateMachine::new(lcp_like());
    let mut w = fresh_writer();
    sm.open(&mut w).unwrap();
    assert_eq!(sm.state(), State::ReqSent);
    // Exactly one packet: Configure-Request, identifier 2 (the counter
    // starts at 1 and is incremented before use), our own options.
    assert_eq!(
        emitted(w),
        vec![vec![0xC0, 0x21, 0x01, 0x02, 0x00, 0x08, 0x05, 0x04, 0x01, 0x02]]
    );
}

#[test]
fn open_outside_closed_does_nothing() {
    let mut sm = StateMachine::new(lcp_like());
    let mut w = fresh_writer();
    sm.open(&mut w).unwrap();
    let mut w2 = fresh_writer();
    sm.open(&mut w2).unwrap();
    assert_eq!(sm.state(), State::ReqSent);
    assert_eq!(emitted(w2), Vec::<Vec<u8>>::new());
}

#[test]
fn all_ack_request_in_reqsent_yields_ack_and_acksent() {
    let mut sm = StateMachine::new(lcp_like());
    let mut w = fresh_writer();
    sm.open(&mut w).unwrap();
    let mut w2 = fresh_writer();
    let mut pkt = vec![0xC0, 0x21, 0x01, 0x07, 0x00, 0x08, 0x05, 0x04, 0x01, 0x02];
    sm.handle(&mut pkt, &mut w2).unwrap();
    assert_eq!(sm.state(), State::AckSent);
    // The reply echoes the accepted option under the peer's identifier.
    assert_eq!(
        emitted(w2),
        vec![vec![0xC0, 0x21, 0x02, 0x07, 0x00, 0x08, 0x05, 0x04, 0x01, 0x02]]
    );
}

#[test]
fn reject_supersedes_nack_in_reply() {
    let proto = TableProtocol {
        id: 0xC021,
        own: vec![],
        rules: vec![
            TableRule { code: 5, rule: Rule::Suggest(vec![9]) },
            TableRule { code: 6, rule: Rule::Refuse },
        ],
    };
    let mut sm = StateMachine::new(proto);
    let mut w = fresh_writer();
    sm.open(&mut w).unwrap();
    assert_eq!(sm.state(), State::ReqSent);
    let mut w2 = fresh_writer();
    // Option 5 draws a Nack, option 6 a Reject: the reply must be a
    // Configure-Reject carrying only option 6.
    let mut pkt = vec![0xC0, 0x21, 0x01, 0x07, 0x00, 0x09, 0x05, 0x03, 0x01, 0x06, 0x02];
    sm.handle(&mut pkt, &mut w2).unwrap();
    assert_eq!(sm.state(), State::ReqSent);
    assert_eq!(emitted(w2), vec![vec![0xC0, 0x21, 0x04, 0x07, 0x00, 0x06, 0x06, 0x02]]);
}

#[test]
fn closed_answers_with_terminate_ack() {
    let mut sm = StateMachine::new(lcp_like());
    let mut w = fresh_writer();
    let mut pkt = vec![0xC0, 0x21, 0x01, 0x09, 0x00, 0x04];
    sm.handle(&mut pkt, &mut w).unwrap();
    assert_eq!(sm.state(), State::Closed);
    // Terminate-Ack under the incoming identifier, no state change.
    assert_eq!(emitted(w), vec![vec![0xC0, 0x21, 0x06, 0x09, 0x00, 0x04]]);
}

#[test]
fn echo_request_ignored_while_closed() {
    let mut sm = StateMachine::new(lcp_like());
    let mut w = fresh_writer();
    let mut pkt = vec![0xC0, 0x21, 0x09, 0x21, 0x00, 0x04];
    sm.handle(&mut pkt, &mut w).unwrap();
    assert_eq!(sm.state(), State::Closed);
    assert_eq!(emitted(w), Vec::<Vec<u8>>::new());
}

fn open_to_opened(sm: &mut StateMachine<TableProtocol>) {
    let mut w = fresh_writer();
    sm.open(&mut w).unwrap();
    let mut w2 = fresh_writer();
    let mut req = vec![0xC0, 0x21, 0x01, 0x07, 0x00, 0x08, 0x05, 0x04, 0x01, 0x02];
    sm.handle(&mut req, &mut w2).unwrap();
    assert_eq!(sm.state(), State::AckSent);
    let mut w3 = fresh_writer();
    let mut ack = vec![0xC0, 0x21, 0x02, 0x02, 0x00, 0x04];
    sm.handle(&mut ack, &mut w3).unwrap();
    assert_eq!(sm.state(), State::Opened);
}

#[test]
fn configure_ack_walks_to_opened() {
    let mut sm = StateMachine::new(lcp_like());
    open_to_opened(&mut sm);
}

#[test]
fn echo_request_answered_when_opened() {
    let mut sm = StateMachine::new(lcp_like());
    open_to_opened(&mut sm);
    let mut w = fresh_writer();
    let mut pkt = vec![0xC0, 0x21, 0x09, 0x21, 0x00, 0x04];
    sm.handle(&mut pkt, &mut w).unwrap();
    assert_eq!(sm.state(), State::Opened);
    // The packet comes back with the code overwritten to Echo-Reply.
    assert_eq!(emitted(w), vec![vec![0xC0, 0x21, 0x0A, 0x21, 0x00, 0x04]]);
    assert_eq!(pkt, vec![0xC0, 0x21, 0x0A, 0x21, 0x00, 0x04]);
}

#[test]
fn configure_reject_resends_request() {
    let mut sm = StateMachine::new(lcp_like());
    let mut w = fresh_writer();
    sm.open(&mut w).unwrap();
    let mut w2 = fresh_writer();
    // The peer rejects our option 5; the engine re-sends its request
    // under the next identifier.
    let mut pkt = vec![0xC0, 0x21, 0x04, 0x02, 0x00, 0x08, 0x05, 0x04, 0x01, 0x02];
    sm.handle(&mut pkt, &mut w2).unwrap();
    assert_eq!(sm.state(), State::ReqSent);
    assert_eq!(
        emitted(w2),
        vec![vec![0xC0, 0x21, 0x01, 0x03, 0x00, 0x08, 0x05, 0x04, 0x01, 0x02]]
    );
}

#[test]
fn too_short_packet_is_rejected() {
    let mut sm = StateMachine::new(lcp_like());
    let mut w = fresh_writer();
    let mut pkt = vec![0xC0, 0x21, 0x01];
    assert_eq!(sm.handle(&mut pkt, &mut w), Err(Error::TooShort));
    assert_eq!(sm.state(), State::Closed);
    // A declared length overrunning the physical packet is also fatal.
    let mut pkt2 = vec![0xC0, 0x21, 0x01, 0x02, 0x00, 0x09, 0x00];
    assert_eq!(sm.handle(&mut pkt2, &mut w), Err(Error::TooShort));
}

#[test]
fn malformed_option_list_is_rejected() {
    // Option length 0 is malformed.
    let r = parse_options(&[0xC0, 0x21, 0x01, 0x02, 0x00, 0x06, 0x05, 0x00]);
    assert!(matches!(r, Err(Error::TooShort)));
    // An option overrunning the packet is malformed.
    let r2 = parse_options(&[0xC0, 0x21, 0x01, 0x02, 0x00, 0x06, 0x05, 0x09]);
    assert!(matches!(r2, Err(Error::TooShort)));
    // A well-formed list parses exactly.
    let v = parse_options(&[0xC0, 0x21, 0x01, 0x02, 0x00, 0x08, 0x05, 0x04, 0x01, 0x02]).unwrap();
    assert_eq!(v.len(), 1);
    assert_eq!(v[0].code, 5);
    assert_eq!(v[0].data, vec![1, 2]);
}

#[test]
fn unexpected_code_is_ignored() {
    let mut sm = StateMachine::new(lcp_like());
    let mut w = fresh_writer();
    sm.open(&mut w).unwrap();
    let mut w2 = fresh_writer();
    // A Terminate-Ack in ReqSent is logged-and-ignored territory.
    let mut pkt = vec![0xC0, 0x21, 0x06, 0x02, 0x00, 0x04];
    sm.handle(&mut pkt, &mut w2).unwrap();
    assert_eq!(sm.state(), State::ReqSent);
    assert_eq!(emitted(w2), Vec::<Vec<u8>>::new());
}

#[test]
fn close_returns_to_closed() {
    let mut sm = StateMachine::new(lcp_like());
    open_to_opened(&mut sm);
    let mut w = fresh_writer();
    sm.close(&mut w).unwrap();
    assert_eq!(sm.state(), State::Closed);
}

#[test]
fn protocol_reject_echoes_packet() {
    let mut sm = StateMachine::new(lcp_like());
    let mut w = fresh_writer();
    sm.send_protocol_reject(&[0xDE, 0xAD], &mut w).unwrap();
    assert_eq!(emitted(w), vec![vec![0xC0, 0x21, 0x08, 0x02, 0x00, 0x06, 0xDE, 0xAD]]);
}

#[test]
fn proto_accessor_reaches_protocol() {
    let mut sm = StateMachine::new(lcp_like());
    assert_eq!(sm.proto().id, 0xC021);
    sm.proto().rules.push(TableRule { code: 6, rule: Rule::Refuse });
    assert_eq!(sm.proto().rules.len(), 2);
}
