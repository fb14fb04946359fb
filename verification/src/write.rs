//! Send-side framing: the bytes put on the wire for one user datagram.
//!
//! The initiator carries its `Init` for the life of the connection and
//! prefixes every user datagram with the full header, payload flag set, so
//! the acceptor can route the datagram to its session. The acceptor replies
//! unframed: its datagrams travel on sockets already bound to the peer, so
//! the initiator reads them whole.

use vstd::prelude::*;

use crate::message::{Header, Init, spec_header_encode};

verus! {

/// The wire bytes for one user datagram: headed on the initiator, bare on
/// the acceptor.
pub open spec fn spec_frame(init: Option<Init>, payload: Seq<u8>) -> Seq<u8> {
    match init {
        Some(i) => spec_header_encode(Header { init: i, with_payload: true }) + payload,
        None => payload,
    }
}

/// Builds the wire bytes for one user datagram.
pub fn frame_payload(init: &Option<Init>, payload: &Vec<u8>) -> (r: Vec<u8>)
    ensures
        r@ == spec_frame(*init, payload@),
{
    let mut out: Vec<u8> = match init {
        Some(i) => Header::new(*i, true).encode(),
        None => Vec::new(),
    };
    let ghost head = out@;
    let mut k: usize = 0;
    while k < payload.len()
        invariant
            k <= payload@.len(),
            out@ =~= head + payload@.take(k as int),
        decreases payload@.len() - k,
    {
        out.push(payload[k]);
        proof {
            assert(out@ =~= head + payload@.take(k + 1));
        }
        k += 1;
    }
    proof {
        assert(payload@.take(payload@.len() as int) =~= payload@);
        match *init {
            Some(i) => {
                assert(out@ =~= spec_frame(*init, payload@));
            },
            None => {
                assert(out@ =~= payload@);
            },
        }
    }
    out
}

} // verus!
