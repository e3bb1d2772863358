use ppproto::crc::crc16;
use ppproto::frame_reader::FrameReader;
use ppproto::frame_writer::FrameWriter;
use ppproto::packet_writer::PacketWriter;
use ppproto::{Code, Error, ProtocolType};

/// Feed `bytes` to a fresh reader, retrieving every completed frame.
fn deframe(bytes: &[u8]) -> Vec<Vec<u8>> {
    let mut r = FrameReader::new();
    let mut buf = vec![0u8; 1024];
    let mut frames: Vec<Vec<u8>> = Vec::new();
    let mut rest: &[u8] = bytes;
    loop {
        let n = r.consume(&mut buf, rest);
        rest = &rest[n..];
        match r.receive() {
            Some(rg) => frames.push(buf[rg].to_vec()),
            None => {
                assert!(rest.is_empty());
                break;
            }
        }
    }
    frames
}

/// Same, but feeding one byte at a time.
fn deframe_byte_at_a_time(bytes: &[u8]) -> Vec<Vec<u8>> {
    let mut r = FrameReader::new();
    let mut buf = vec![0u8; 1024];
    let mut frames: Vec<Vec<u8>> = Vec::new();
    for &b in bytes {
        let chunk = [b];
        let mut fed = 0;
        while fed < 1 {
            fed += r.consume(&mut buf, &chunk[fed..]);
            if let Some(rg) = r.receive() {
                frames.push(buf[rg].to_vec());
            }
        }
    }
    if let Some(rg) = r.receive() {
        frames.push(buf[rg].to_vec());
    }
    frames
}

fn encode_one(payload: &[u8]) -> Vec<u8> {
    let mut w = FrameWriter::new(vec![0u8; 1024]);
    w.start().unwrap();
    w.append(payload).unwrap();
    w.finish().unwrap();
    let (buf, n) = w.into_buffer();
    buf[..n].to_vec()
}

#[test]
fn crc16_known_vector() {
    assert_eq!(crc16(0xFFFF, b"123456789"), 0x6F91);
}

#[test]
fn crc16_address_byte_seed() {
    assert_eq!(crc16(0xFFFF, &[0xFF]), 0x00FF);
}

#[test]
fn writer_emits_exact_frame() {
    let frame = encode_one(&[0xC0, 0x21, 0x01, 0x02, 0x00, 0x04]);
    assert_eq!(
        frame,
        vec![0x7E, 0xFF, 0x03, 0xC0, 0x21, 0x01, 0x02, 0x00, 0x04, 0xB5, 0x5A, 0x7E]
    );
}

#[test]
fn writer_escapes_reserved_bytes() {
    let frame = encode_one(&[0x7E, 0x01, 0x7D, 0x02]);
    assert_eq!(
        frame,
        vec![0x7E, 0xFF, 0x03, 0x7D, 0x5E, 0x01, 0x7D, 0x5D, 0x02, 0x1C, 0xDA, 0x7E]
    );
}

#[test]
fn round_trip_plain_payload() {
    let payload = vec![0xC0, 0x21, 0x01, 0x02, 0x00, 0x04];
    let frames = deframe(&encode_one(&payload));
    assert_eq!(frames, vec![payload]);
}

#[test]
fn round_trip_payload_with_flag_and_escape_bytes() {
    let payload = vec![0x7E, 0x7D, 0x00, 0x7E, 0x7E, 0x7D, 0x5E];
    let frames = deframe(&encode_one(&payload));
    assert_eq!(frames, vec![payload]);
}

#[test]
fn round_trip_empty_payload() {
    let frames = deframe(&encode_one(&[]));
    assert_eq!(frames, vec![Vec::<u8>::new()]);
}

#[test]
fn chunking_independence() {
    let mut bytes = Vec::new();
    bytes.extend_from_slice(&encode_one(&[0x11, 0x22, 0x7E, 0x33]));
    bytes.extend_from_slice(&encode_one(&[0x44, 0x7D]));
    let all_at_once = deframe(&bytes);
    let one_at_a_time = deframe_byte_at_a_time(&bytes);
    assert_eq!(all_at_once, one_at_a_time);
    assert_eq!(all_at_once, vec![vec![0x11, 0x22, 0x7E, 0x33], vec![0x44, 0x7D]]);
}

#[test]
fn frame_with_wrong_control_byte_is_dropped() {
    // Stored bytes 04 AA AA with a *valid* frame check sequence: only
    // the control-byte check can reject it.
    let bytes = [0x7E, 0xFF, 0x04, 0xAA, 0xAA, 0xB2, 0x02, 0x7E];
    let mut r = FrameReader::new();
    let mut buf = vec![0u8; 64];
    let n = r.consume(&mut buf, &bytes);
    assert_eq!(n, bytes.len());
    assert_eq!(r.receive(), None);
}

#[test]
fn frame_with_wrong_checksum_is_dropped() {
    let bytes = [0x7E, 0xFF, 0x03, 0xAA, 0xAA, 0x00, 0x00, 0x7E];
    let mut r = FrameReader::new();
    let mut buf = vec![0u8; 64];
    let n = r.consume(&mut buf, &bytes);
    assert_eq!(n, bytes.len());
    assert_eq!(r.receive(), None);
}

#[test]
fn backpressure_blocks_until_receive() {
    let mut bytes = encode_one(&[0x01, 0x02]);
    let tail = encode_one(&[0x03, 0x04]);
    bytes.extend_from_slice(&tail);
    let mut r = FrameReader::new();
    let mut buf = vec![0u8; 64];
    let n1 = r.consume(&mut buf, &bytes);
    assert!(n1 < bytes.len());
    // A completed-but-unretrieved frame consumes nothing more.
    let n2 = r.consume(&mut buf, &bytes[n1..]);
    assert_eq!(n2, 0);
    let rg = r.receive().unwrap();
    assert_eq!(&buf[rg], &[0x01, 0x02]);
    let n3 = r.consume(&mut buf, &bytes[n1..]);
    assert_eq!(n3, bytes.len() - n1);
    let rg2 = r.receive().unwrap();
    assert_eq!(&buf[rg2], &[0x03, 0x04]);
}

#[test]
fn oversized_frame_is_abandoned() {
    // A frame whose de-escaped bytes overflow the destination buffer is
    // dropped; scanning recovers and a fitting frame still gets through.
    let mut bytes = encode_one(&[0x01, 0x02, 0x03, 0x04, 0x05, 0x06, 0x07, 0x08]);
    bytes.extend_from_slice(&encode_one(&[0x09]));
    let mut r = FrameReader::new();
    let mut buf = vec![0u8; 6];
    let n = r.consume(&mut buf, &bytes);
    assert_eq!(n, bytes.len());
    let rg = r.receive().unwrap();
    assert_eq!(&buf[rg], &[0x09]);
    assert_eq!(r.receive(), None);
}

#[test]
fn writer_reports_exhaustion() {
    let mut w = FrameWriter::new(vec![0u8; 4]);
    w.start().unwrap();
    // 4 bytes cannot hold the check sequence and the closing flag.
    assert_eq!(w.finish(), Err(Error::NoMem));
}

#[test]
fn packet_writer_builds_header_and_body() {
    let mut p = PacketWriter::new();
    p.append(&[0xAB]).unwrap();
    p.append_option(0x05, &[0x01, 0x02]).unwrap();
    let mut w = FrameWriter::new(vec![0u8; 64]);
    p.write(&mut w, ProtocolType(0xC021), Code::ConfigureReq, 7).unwrap();
    let (buf, n) = w.into_buffer();
    let frames = deframe(&buf[..n]);
    assert_eq!(
        frames,
        vec![vec![0xC0, 0x21, 0x01, 0x07, 0x00, 0x09, 0xAB, 0x05, 0x04, 0x01, 0x02]]
    );
}

#[test]
fn packet_writer_refuses_oversized_option() {
    let mut p = PacketWriter::new();
    let too_long = vec![0u8; 254];
    assert_eq!(p.append_option(0x01, &too_long), Err(Error::NoMem));
}

#[test]
fn code_wire_values_round_trip() {
    for x in 0u8..=255 {
        assert_eq!(Code::from_u8(x).to_u8(), x);
    }
    assert_eq!(Code::from_u8(1), Code::ConfigureReq);
    assert_eq!(Code::from_u8(6), Code::TerminateAck);
    assert_eq!(Code::from_u8(10), Code::EchoReply);
    assert_eq!(Code::from_u8(99), Code::Unknown(99));
}
