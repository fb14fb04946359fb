use mpudp::message::{DecodeError, Header, Init, Session, HEADER_SIZE, INIT_SIZE};

fn sample_init() -> Init {
    Init::new(Session::new(0xA1B2_C3D4_E5F6_0718), 2)
}

#[test]
fn init_encode_layout() {
    let enc = sample_init().encode();
    assert_eq!(enc.len(), INIT_SIZE);
    assert_eq!(
        enc,
        vec![0xA1, 0xB2, 0xC3, 0xD4, 0xE5, 0xF6, 0x07, 0x18, 0, 0, 0, 0, 0, 0, 0, 2]
    );
}

#[test]
fn init_round_trip() {
    let init = sample_init();
    let back = Init::decode(&init.encode()).unwrap();
    assert_eq!(back.session().inner(), 0xA1B2_C3D4_E5F6_0718);
    assert_eq!(back.conns(), 2);
}

#[test]
fn init_round_trip_extremes() {
    for conns in [1usize, usize::MAX] {
        let init = Init::new(Session::new(u64::MAX), conns);
        let back = Init::decode(&init.encode()).unwrap();
        assert_eq!(back.session().inner(), u64::MAX);
        assert_eq!(back.conns(), conns);
    }
}

#[test]
fn init_zero_conns_is_error() {
    let mut buf = vec![0u8; INIT_SIZE];
    buf[0] = 9;
    assert_eq!(Init::decode(&buf), Err(DecodeError::ZeroConns));
}

#[test]
fn header_round_trip() {
    for with_payload in [false, true] {
        let h = Header::new(sample_init(), with_payload);
        let enc = h.encode();
        assert_eq!(enc.len(), HEADER_SIZE);
        assert_eq!(enc[16], if with_payload { 1 } else { 0 });
        let back = Header::decode(&enc).unwrap();
        assert_eq!(back.with_payload(), with_payload);
        assert_eq!(back.init().session().inner(), 0xA1B2_C3D4_E5F6_0718);
        assert_eq!(back.init().conns(), 2);
    }
}

#[test]
fn header_decode_encode_is_identity() {
    let mut buf = vec![0u8; HEADER_SIZE];
    buf[7] = 0x2A;
    buf[15] = 3;
    buf[16] = 1;
    let h = Header::decode(&buf).unwrap();
    assert_eq!(h.encode(), buf);
}

#[test]
fn header_bad_payload_flag_is_error() {
    let mut buf = Header::new(sample_init(), true).encode();
    buf[16] = 2;
    assert_eq!(Header::decode(&buf), Err(DecodeError::BadPayloadFlag));
    buf[16] = 0xFF;
    assert_eq!(Header::decode(&buf), Err(DecodeError::BadPayloadFlag));
}

#[test]
fn header_zero_conns_is_error() {
    let mut buf = vec![0u8; HEADER_SIZE];
    buf[3] = 7;
    buf[16] = 1;
    assert_eq!(Header::decode(&buf), Err(DecodeError::ZeroConns));
}

#[test]
fn session_accessors() {
    let s = Session::new(42);
    assert_eq!(s.inner(), 42);
    assert_eq!(s, Session::new(42));
    assert_ne!(s, Session::new(43));
}

#[test]
fn session_random_smoke() {
    let a = Session::random();
    let b = Session::random();
    let c = Session::random();
    // three draws of 64 bits are overwhelmingly unlikely to coincide
    assert!(a != b || b != c);
}
