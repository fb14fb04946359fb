//! Receive-side framing: what one arriving datagram yields to the caller.
//!
//! On the acceptor side (`with_header` set) every datagram must open with
//! the 17-byte session header: a datagram too short or with a malformed
//! header is a bad packet, a handshake datagram (payload flag clear) yields
//! nothing, and a user datagram yields the bytes after the header. On the
//! initiator side the whole datagram is the payload. In either case the
//! payload is silently truncated to the caller's buffer capacity.

use vstd::prelude::*;

use crate::message::{Header, HEADER_SIZE, spec_header_decode};

verus! {

/// Receive failure: the merged stream is closed, or a datagram's header did
/// not parse.
#[derive(Debug, Clone, Copy, PartialEq, Eq, Structural)]
pub enum RecvError {
    /// Every path's receiver has exited; the connection yields nothing more.
    Dead,
    /// The datagram's header was malformed; only this datagram is lost.
    BadPacket,
}

/// `s` cut down to at most `cap` bytes.
pub open spec fn spec_clip(s: Seq<u8>, cap: nat) -> Seq<u8> {
    if s.len() <= cap {
        s
    } else {
        s.take(cap as int)
    }
}

/// What one datagram yields: a decode failure, nothing (a handshake
/// datagram), or the payload clipped to the caller's capacity.
pub open spec fn spec_extract(pkt: Seq<u8>, with_header: bool, cap: nat) -> Result<
    Option<Seq<u8>>,
    RecvError,
> {
    if with_header {
        if pkt.len() < HEADER_SIZE {
            Err(RecvError::BadPacket)
        } else {
            match spec_header_decode(pkt.subrange(0, HEADER_SIZE as int)) {
                Err(_) => Err(RecvError::BadPacket),
                Ok(h) => if !h.with_payload {
                    Ok(None)
                } else {
                    Ok(Some(spec_clip(pkt.skip(HEADER_SIZE as int), cap)))
                },
            }
        }
    } else {
        Ok(Some(spec_clip(pkt, cap)))
    }
}

/// Extracts the user payload of one datagram, for a caller whose receive
/// buffer holds `cap` bytes.
pub fn extract_payload(pkt: &Vec<u8>, with_header: bool, cap: usize) -> (r: Result<
    Option<Vec<u8>>,
    RecvError,
>)
    ensures
        match r {
            Ok(Some(v)) => spec_extract(pkt@, with_header, cap as nat) == Ok::<
                Option<Seq<u8>>,
                RecvError,
            >(Some(v@)) && v@.len() <= cap,
            Ok(None) => spec_extract(pkt@, with_header, cap as nat) == Ok::<
                Option<Seq<u8>>,
                RecvError,
            >(None),
            Err(e) => spec_extract(pkt@, with_header, cap as nat) == Err::<
                Option<Seq<u8>>,
                RecvError,
            >(e),
        },
{
    let mut start: usize = 0;
    if with_header {
        if pkt.len() < HEADER_SIZE {
            return Err(RecvError::BadPacket);
        }
        proof {
            assert(pkt@.subrange(0, HEADER_SIZE as int) =~= pkt@.subrange(0, 0 + HEADER_SIZE));
        }
        let h = match Header::decode_at(pkt, 0) {
            Err(_) => {
                return Err(RecvError::BadPacket);
            },
            Ok(h) => h,
        };
        proof {
            assert(spec_header_decode(pkt@.subrange(0, HEADER_SIZE as int)) == Ok::<
                Header,
                crate::message::DecodeError,
            >(h));
        }
        if !h.with_payload() {
            return Ok(None);
        }
        start = HEADER_SIZE;
    }
    let avail = pkt.len() - start;
    let n = if cap <= avail {
        cap
    } else {
        avail
    };
    let mut out: Vec<u8> = Vec::new();
    let mut i: usize = 0;
    while i < n
        invariant
            i <= n,
            start + n <= pkt@.len(),
            pkt@.len() <= usize::MAX,
            out@ =~= pkt@.subrange(start as int, start + i),
        decreases n - i,
    {
        out.push(pkt[start + i]);
        proof {
            assert(out@ =~= pkt@.subrange(start as int, start + i + 1));
        }
        i += 1;
    }
    proof {
        let payload = pkt@.skip(start as int);
        assert(out@ =~= spec_clip(payload, cap as nat));
        if !with_header {
            assert(pkt@.skip(0) =~= pkt@);
        }
    }
    Ok(Some(out))
}

/// Truncation is silent and exact: when extraction yields a payload, that
/// payload is the datagram's payload clipped to the buffer capacity, and a
/// payload longer than the buffer comes back with exactly the buffer's
/// length.
pub proof fn lemma_truncation(pkt: Seq<u8>, with_header: bool, cap: nat)
    requires
        spec_extract(pkt, with_header, cap) matches Ok(p) && p is Some,
    ensures
        ({
            let payload = if with_header {
                pkt.skip(HEADER_SIZE as int)
            } else {
                pkt
            };
            let got = spec_extract(pkt, with_header, cap)->Ok_0->Some_0;
            got == spec_clip(payload, cap) && got.len() == (if payload.len() <= cap {
                payload.len()
            } else {
                cap
            })
        }),
{
}

} // verus!
