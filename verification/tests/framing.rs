use mpudp::listen::admit_handshake;
use mpudp::message::{Header, Init, Session, HEADER_SIZE};
use mpudp::read::{extract_payload, RecvError};
use mpudp::write::frame_payload;

fn sample_init() -> Init {
    Init::new(Session::new(7), 2)
}

#[test]
fn frame_prefixes_header_on_initiator() {
    let payload = b"hello".to_vec();
    let out = frame_payload(&Some(sample_init()), &payload);
    assert_eq!(out.len(), HEADER_SIZE + 5);
    let h = Header::decode_at(&out, 0).unwrap();
    assert!(h.with_payload());
    assert_eq!(h.init().session().inner(), 7);
    assert_eq!(h.init().conns(), 2);
    assert_eq!(&out[HEADER_SIZE..], b"hello");
}

#[test]
fn frame_is_bare_on_acceptor() {
    let payload = b"hi".to_vec();
    assert_eq!(frame_payload(&None, &payload), payload);
}

#[test]
fn extract_whole_datagram_without_header() {
    let pkt = b"abcdef".to_vec();
    assert_eq!(extract_payload(&pkt, false, 64), Ok(Some(pkt.clone())));
}

#[test]
fn extract_truncates_to_buffer_length() {
    // a datagram larger than the receive buffer is cut down silently and
    // the returned length equals the buffer length
    let pkt = b"0123456789".to_vec();
    let got = extract_payload(&pkt, false, 4).unwrap().unwrap();
    assert_eq!(got.len(), 4);
    assert_eq!(got, b"0123".to_vec());
}

#[test]
fn extract_strips_header_on_acceptor() {
    let pkt = frame_payload(&Some(sample_init()), &b"payload".to_vec());
    assert_eq!(
        extract_payload(&pkt, true, 64),
        Ok(Some(b"payload".to_vec()))
    );
}

#[test]
fn extract_truncates_after_header() {
    let pkt = frame_payload(&Some(sample_init()), &b"payload".to_vec());
    let got = extract_payload(&pkt, true, 3).unwrap().unwrap();
    assert_eq!(got, b"pay".to_vec());
}

#[test]
fn extract_skips_handshake_datagrams() {
    let pkt = Header::new(sample_init(), false).encode();
    assert_eq!(extract_payload(&pkt, true, 64), Ok(None));
}

#[test]
fn extract_rejects_tampered_flag() {
    let mut pkt = Header::new(sample_init(), true).encode();
    pkt[16] = 2;
    assert_eq!(extract_payload(&pkt, true, 64), Err(RecvError::BadPacket));
}

#[test]
fn extract_rejects_short_datagram() {
    let pkt = vec![0u8; HEADER_SIZE - 1];
    assert_eq!(extract_payload(&pkt, true, 64), Err(RecvError::BadPacket));
}

#[test]
fn round_trip_both_directions() {
    // initiator -> acceptor: framed, stripped on receive
    let to_acceptor = frame_payload(&Some(sample_init()), &b"hello".to_vec());
    let got = extract_payload(&to_acceptor, true, 1024).unwrap().unwrap();
    assert_eq!(got.len(), 5);
    assert_eq!(got, b"hello".to_vec());
    // acceptor -> initiator: bare, read whole
    let to_initiator = frame_payload(&None, &b"hi".to_vec());
    let got = extract_payload(&to_initiator, false, 1024).unwrap().unwrap();
    assert_eq!(got.len(), 2);
    assert_eq!(got, b"hi".to_vec());
}

#[test]
fn admit_accepts_valid_handshake() {
    let pkt = Header::new(sample_init(), false).encode();
    let h = admit_handshake(&pkt, 2).unwrap();
    assert_eq!(h.init().session().inner(), 7);
    assert_eq!(h.init().conns(), 2);
}

#[test]
fn admit_rejects_too_many_paths() {
    let pkt = Header::new(Init::new(Session::new(7), 3), false).encode();
    assert_eq!(admit_handshake(&pkt, 2), None);
}

#[test]
fn admit_rejects_tampered_flag() {
    let mut pkt = Header::new(sample_init(), false).encode();
    pkt[16] = 2;
    assert_eq!(admit_handshake(&pkt, 8), None);
}

#[test]
fn admit_rejects_zero_conns() {
    let mut pkt = vec![0u8; HEADER_SIZE];
    pkt[5] = 1;
    assert_eq!(admit_handshake(&pkt, 8), None);
}

#[test]
fn admit_rejects_short_datagram() {
    assert_eq!(admit_handshake(&vec![0u8; 5], 8), None);
}
