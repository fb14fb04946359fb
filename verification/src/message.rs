//! Wire format of the handshake header.
//!
//! Every datagram sent by the initiator starts with a 17-byte header: a
//! 16-byte `Init` record — `session` and `conns`, each a big-endian `u64` —
//! followed by one payload flag byte that must be `0` (handshake only) or `1`
//! (user payload follows).

use vstd::prelude::*;

verus! {

/// Number of bytes in an encoded `Init`: two big-endian `u64` fields.
pub const INIT_SIZE: usize = 16;

/// Number of bytes in an encoded `Header`: an `Init` plus the payload flag.
pub const HEADER_SIZE: usize = 17;

/// 64-bit opaque session identifier, minted at random by the initiator and
/// used as the join key on the acceptor's assembly table.
#[derive(Debug, Clone, Copy, PartialEq, Eq, Hash, Structural)]
pub struct Session(pub u64);

impl Session {
    /// Relies on `rand::random`: a fresh identifier drawn from the
    /// thread-local generator. Nothing is promised of the value.
    #[verifier::external_body]
    pub fn random() -> Session {
        Session(rand::random::<u64>())
    }

    pub fn new(number: u64) -> (s: Session)
        ensures
            s.0 == number,
    {
        Session(number)
    }

    pub fn inner(&self) -> (n: u64)
        ensures
            n == self.0,
    {
        self.0
    }
}

/// The fixed part of the handshake: the session identifier and the number of
/// paths (`conns`) the initiator opened. A valid `Init` has `conns >= 1`.
#[derive(Debug, Clone, Copy, PartialEq, Eq, Structural)]
pub struct Init {
    pub session: Session,
    pub conns: usize,
}

impl Init {
    /// A well-formed `Init` names at least one path.
    pub open spec fn wf(self) -> bool {
        self.conns >= 1
    }

    pub fn new(session: Session, conns: usize) -> (i: Init)
        requires
            conns >= 1,
        ensures
            i == (Init { session, conns }),
            i.wf(),
    {
        Init { session, conns }
    }

    pub fn session(&self) -> (s: Session)
        ensures
            s == self.session,
    {
        self.session
    }

    pub fn conns(&self) -> (n: usize)
        ensures
            n == self.conns,
    {
        self.conns
    }
}

/// The full 17-byte wire header: an `Init` and the payload flag.
#[derive(Debug, Clone, Copy, PartialEq, Eq, Structural)]
pub struct Header {
    pub init: Init,
    pub with_payload: bool,
}

impl Header {
    pub open spec fn wf(self) -> bool {
        self.init.wf()
    }

    pub fn new(init: Init, with_payload: bool) -> (h: Header)
        ensures
            h == (Header { init, with_payload }),
    {
        Header { init, with_payload }
    }

    pub fn init(&self) -> (i: &Init)
        ensures
            i == self.init,
    {
        &self.init
    }

    pub fn with_payload(&self) -> (b: bool)
        ensures
            b == self.with_payload,
    {
        self.with_payload
    }
}

// --- big-endian byte order for the two u64 fields -------------------------

pub open spec fn spec_u64_to_be_bytes(x: u64) -> Seq<u8> {
    seq![
        (x >> 56) as u8,
        (x >> 48) as u8,
        (x >> 40) as u8,
        (x >> 32) as u8,
        (x >> 24) as u8,
        (x >> 16) as u8,
        (x >> 8) as u8,
        x as u8,
    ]
}

pub open spec fn spec_u64_from_be_bytes(s: Seq<u8>) -> u64
    recommends
        s.len() == 8,
{
    (((s[0] as u64) << 56) | ((s[1] as u64) << 48) | ((s[2] as u64) << 40) | ((s[3] as u64) << 32)
        | ((s[4] as u64) << 24) | ((s[5] as u64) << 16) | ((s[6] as u64) << 8) | (s[7] as u64))
}

/// Reading back the eight bytes of a `u64` gives the number itself.
pub proof fn lemma_u64_be_bytes_round_trip(x: u64)
    ensures
        spec_u64_from_be_bytes(spec_u64_to_be_bytes(x)) == x,
{
    let s = spec_u64_to_be_bytes(x);
    assert((((((x >> 56) as u8) as u64) << 56) | ((((x >> 48) as u8) as u64) << 48)
        | ((((x >> 40) as u8) as u64) << 40) | ((((x >> 32) as u8) as u64) << 32)
        | ((((x >> 24) as u8) as u64) << 24) | ((((x >> 16) as u8) as u64) << 16)
        | ((((x >> 8) as u8) as u64) << 8) | ((x as u8) as u64)) == x) by (bit_vector);
}

/// Encoding the number read from eight bytes gives the bytes themselves.
pub proof fn lemma_u64_be_bytes_inverse(s: Seq<u8>)
    requires
        s.len() == 8,
    ensures
        spec_u64_to_be_bytes(spec_u64_from_be_bytes(s)) == s,
{
    let b0 = s[0];
    let b1 = s[1];
    let b2 = s[2];
    let b3 = s[3];
    let b4 = s[4];
    let b5 = s[5];
    let b6 = s[6];
    let b7 = s[7];
    let x = spec_u64_from_be_bytes(s);
    assert(x == (((b0 as u64) << 56) | ((b1 as u64) << 48) | ((b2 as u64) << 40)
        | ((b3 as u64) << 32) | ((b4 as u64) << 24) | ((b5 as u64) << 16) | ((b6 as u64) << 8)
        | (b7 as u64)));
    let y = (((b0 as u64) << 56) | ((b1 as u64) << 48) | ((b2 as u64) << 40) | ((b3 as u64) << 32)
        | ((b4 as u64) << 24) | ((b5 as u64) << 16) | ((b6 as u64) << 8) | (b7 as u64));
    assert((y >> 56) as u8 == b0 && (y >> 48) as u8 == b1 && (y >> 40) as u8 == b2 && (y >> 32)
        as u8 == b3 && (y >> 24) as u8 == b4 && (y >> 16) as u8 == b5 && (y >> 8) as u8 == b6 && y
        as u8 == b7) by (bit_vector)
        requires
            y == (((b0 as u64) << 56) | ((b1 as u64) << 48) | ((b2 as u64) << 40) | ((b3 as u64)
                << 32) | ((b4 as u64) << 24) | ((b5 as u64) << 16) | ((b6 as u64) << 8) | (b7
                as u64)),
    ;
    assert(spec_u64_to_be_bytes(x) =~= s);
}

/// Appends the eight big-endian bytes of `x` to `out`.
pub fn push_u64_be(out: &mut Vec<u8>, x: u64)
    ensures
        final(out)@ == old(out)@ + spec_u64_to_be_bytes(x),
{
    out.push((x >> 56) as u8);
    out.push((x >> 48) as u8);
    out.push((x >> 40) as u8);
    out.push((x >> 32) as u8);
    out.push((x >> 24) as u8);
    out.push((x >> 16) as u8);
    out.push((x >> 8) as u8);
    out.push(x as u8);
    proof {
        assert(out@ =~= old(out)@ + spec_u64_to_be_bytes(x));
    }
}

/// Reads a big-endian `u64` from `buf` starting at `off`.
pub fn read_u64_be(buf: &Vec<u8>, off: usize) -> (x: u64)
    requires
        off + 8 <= buf@.len(),
    ensures
        x == spec_u64_from_be_bytes(buf@.subrange(off as int, off + 8)),
{
    let _len: usize = buf.len();
    let x = ((buf[off] as u64) << 56) | ((buf[off + 1] as u64) << 48) | ((buf[off + 2] as u64)
        << 40) | ((buf[off + 3] as u64) << 32) | ((buf[off + 4] as u64) << 24) | ((buf[off + 5]
        as u64) << 16) | ((buf[off + 6] as u64) << 8) | (buf[off + 7] as u64);
    proof {
        let s = buf@.subrange(off as int, off + 8);
        assert(s[0] == buf@[off as int]);
        assert(s[1] == buf@[off + 1]);
        assert(s[2] == buf@[off + 2]);
        assert(s[3] == buf@[off + 3]);
        assert(s[4] == buf@[off + 4]);
        assert(s[5] == buf@[off + 5]);
        assert(s[6] == buf@[off + 6]);
        assert(s[7] == buf@[off + 7]);
    }
    x
}

/// Why a buffer failed to decode.
#[derive(Debug, Clone, Copy, PartialEq, Eq, Structural)]
pub enum DecodeError {
    /// The `conns` field was zero.
    ZeroConns,
    /// The `conns` field does not fit in `usize` on this platform.
    ConnsOverflow,
    /// The payload flag byte was neither `0` nor `1`.
    BadPayloadFlag,
}

// --- codec ----------------------------------------------------------------

pub open spec fn spec_init_encode(i: Init) -> Seq<u8> {
    spec_u64_to_be_bytes(i.session.0) + spec_u64_to_be_bytes(i.conns as u64)
}

pub open spec fn spec_init_decode(s: Seq<u8>) -> Result<Init, DecodeError>
    recommends
        s.len() == INIT_SIZE,
{
    let session = spec_u64_from_be_bytes(s.subrange(0, 8));
    let conns = spec_u64_from_be_bytes(s.subrange(8, 16));
    if conns > usize::MAX as u64 {
        Err(DecodeError::ConnsOverflow)
    } else if conns == 0 {
        Err(DecodeError::ZeroConns)
    } else {
        Ok(Init { session: Session(session), conns: conns as usize })
    }
}

pub open spec fn spec_header_encode(h: Header) -> Seq<u8> {
    spec_init_encode(h.init).push(
        if h.with_payload {
            1u8
        } else {
            0u8
        },
    )
}

pub open spec fn spec_header_decode(s: Seq<u8>) -> Result<Header, DecodeError>
    recommends
        s.len() == HEADER_SIZE,
{
    match spec_init_decode(s.subrange(0, INIT_SIZE as int)) {
        Err(e) => Err(e),
        Ok(init) => if s[16] == 0 {
            Ok(Header { init, with_payload: false })
        } else if s[16] == 1 {
            Ok(Header { init, with_payload: true })
        } else {
            Err(DecodeError::BadPayloadFlag)
        },
    }
}

impl Init {
    pub fn encode(&self) -> (r: Vec<u8>)
        ensures
            r@ == spec_init_encode(*self),
            r@.len() == INIT_SIZE,
    {
        let mut r: Vec<u8> = Vec::new();
        push_u64_be(&mut r, self.session.0);
        push_u64_be(&mut r, self.conns as u64);
        proof {
            assert(r@ =~= spec_init_encode(*self));
        }
        r
    }

    pub fn decode(buf: &Vec<u8>) -> (r: Result<Init, DecodeError>)
        requires
            buf@.len() == INIT_SIZE,
        ensures
            r == spec_init_decode(buf@),
            r matches Ok(i) ==> i.wf(),
    {
        Self::decode_at(buf, 0)
    }

    /// Decodes the 16-byte `Init` record found at `off` in `buf`.
    pub fn decode_at(buf: &Vec<u8>, off: usize) -> (r: Result<Init, DecodeError>)
        requires
            off + INIT_SIZE <= buf@.len(),
        ensures
            r == spec_init_decode(buf@.subrange(off as int, off + INIT_SIZE)),
            r matches Ok(i) ==> i.wf(),
    {
        let ghost s = buf@.subrange(off as int, off + INIT_SIZE);
        let _len: usize = buf.len();
        let session = read_u64_be(buf, off);
        let conns = read_u64_be(buf, off + 8);
        proof {
            assert(s.subrange(0, 8) =~= buf@.subrange(off as int, off + 8));
            assert(s.subrange(8, 16) =~= buf@.subrange(off + 8, off + 16));
        }
        if conns > usize::MAX as u64 {
            Err(DecodeError::ConnsOverflow)
        } else if conns == 0 {
            Err(DecodeError::ZeroConns)
        } else {
            Ok(Init { session: Session::new(session), conns: conns as usize })
        }
    }
}

impl Header {
    pub fn encode(&self) -> (r: Vec<u8>)
        ensures
            r@ == spec_header_encode(*self),
            r@.len() == HEADER_SIZE,
    {
        let mut r = self.init.encode();
        r.push(
            if self.with_payload {
                1
            } else {
                0
            },
        );
        r
    }

    pub fn decode(buf: &Vec<u8>) -> (r: Result<Header, DecodeError>)
        requires
            buf@.len() == HEADER_SIZE,
        ensures
            r == spec_header_decode(buf@),
            r matches Ok(h) ==> h.wf(),
    {
        Self::decode_at(buf, 0)
    }

    /// Decodes the 17-byte header found at `off` in `buf`.
    pub fn decode_at(buf: &Vec<u8>, off: usize) -> (r: Result<Header, DecodeError>)
        requires
            off + HEADER_SIZE <= buf@.len(),
        ensures
            r == spec_header_decode(buf@.subrange(off as int, off + HEADER_SIZE)),
            r matches Ok(h) ==> h.wf(),
    {
        let ghost s = buf@.subrange(off as int, off + HEADER_SIZE);
        let _len: usize = buf.len();
        proof {
            assert(s.subrange(0, INIT_SIZE as int) =~= buf@.subrange(off as int, off + INIT_SIZE));
            assert(s[16] == buf@[off + 16]);
        }
        let init = match Init::decode_at(buf, off) {
            Ok(init) => init,
            Err(e) => {
                return Err(e);
            },
        };
        let flag = buf[off + 16];
        if flag == 0 {
            Ok(Header { init, with_payload: false })
        } else if flag == 1 {
            Ok(Header { init, with_payload: true })
        } else {
            Err(DecodeError::BadPayloadFlag)
        }
    }
}

// --- round-trip laws ------------------------------------------------------

/// Decoding an encoded `Init` gives the record back, for any well-formed
/// record, whatever its session value and path count.
pub proof fn lemma_init_round_trip(i: Init)
    requires
        i.wf(),
    ensures
        spec_init_decode(spec_init_encode(i)) == Ok::<Init, DecodeError>(i),
{
    let s = spec_init_encode(i);
    assert(s.subrange(0, 8) =~= spec_u64_to_be_bytes(i.session.0));
    assert(s.subrange(8, 16) =~= spec_u64_to_be_bytes(i.conns as u64));
    lemma_u64_be_bytes_round_trip(i.session.0);
    lemma_u64_be_bytes_round_trip(i.conns as u64);
}

/// Encoding a decoded 16-byte buffer gives the buffer back.
pub proof fn lemma_init_decode_encode(s: Seq<u8>)
    requires
        s.len() == INIT_SIZE,
        spec_init_decode(s) is Ok,
    ensures
        spec_init_encode(spec_init_decode(s)->Ok_0) == s,
{
    let i = spec_init_decode(s)->Ok_0;
    lemma_u64_be_bytes_inverse(s.subrange(0, 8));
    lemma_u64_be_bytes_inverse(s.subrange(8, 16));
    assert(spec_init_encode(i) =~= s);
}

/// Decoding an encoded header gives the header back, for any well-formed
/// header.
pub proof fn lemma_header_round_trip(h: Header)
    requires
        h.wf(),
    ensures
        spec_header_decode(spec_header_encode(h)) == Ok::<Header, DecodeError>(h),
{
    let s = spec_header_encode(h);
    assert(s.subrange(0, INIT_SIZE as int) =~= spec_init_encode(h.init));
    lemma_init_round_trip(h.init);
}

/// Encoding a decoded 17-byte buffer gives the buffer back.
pub proof fn lemma_header_decode_encode(s: Seq<u8>)
    requires
        s.len() == HEADER_SIZE,
        spec_header_decode(s) is Ok,
    ensures
        spec_header_encode(spec_header_decode(s)->Ok_0) == s,
{
    let h = spec_header_decode(s)->Ok_0;
    lemma_init_decode_encode(s.subrange(0, INIT_SIZE as int));
    assert(spec_header_encode(h) =~= s);
}

} // verus!
