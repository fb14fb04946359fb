//! Acceptor-side admission of handshake datagrams.
//!
//! The first datagram of every per-peer sub-connection must open with a
//! well-formed 17-byte header whose path count does not exceed the
//! listener's configured maximum; anything else is silently dropped.

use vstd::prelude::*;

use crate::message::{Header, HEADER_SIZE, spec_header_decode};

verus! {

/// How long an assembly may rest without an insert before the janitor sweeps
/// it, in nanoseconds: sixty seconds.
pub const BACKLOG_TIMEOUT_NS: u64 = 60_000_000_000;

/// Default bound on concurrently assembling sessions, and the capacity of
/// the completion queue.
pub const BACKLOG_MAX: usize = 64;

/// The header under which a first datagram is admitted: present exactly when
/// the datagram is long enough, its header decodes, and its path count is at
/// most `max_session_conns`.
pub open spec fn spec_admit(pkt: Seq<u8>, max_session_conns: usize) -> Option<Header> {
    if pkt.len() < HEADER_SIZE {
        None
    } else {
        match spec_header_decode(pkt.subrange(0, HEADER_SIZE as int)) {
            Err(_) => None,
            Ok(h) => if h.init.conns > max_session_conns {
                None
            } else {
                Some(h)
            },
        }
    }
}

/// Parses and screens the first datagram of a sub-connection. Returns the
/// header exactly when the datagram is admissible; the returned header is
/// well formed and names at most `max_session_conns` paths.
pub fn admit_handshake(pkt: &Vec<u8>, max_session_conns: usize) -> (r: Option<Header>)
    ensures
        r == spec_admit(pkt@, max_session_conns),
        r matches Some(h) ==> h.wf() && h.init.conns <= max_session_conns,
{
    if pkt.len() < HEADER_SIZE {
        return None;
    }
    proof {
        assert(pkt@.subrange(0, HEADER_SIZE as int) =~= pkt@.subrange(0, 0 + HEADER_SIZE));
    }
    match Header::decode_at(pkt, 0) {
        Err(_) => None,
        Ok(h) => {
            if h.init.conns > max_session_conns {
                None
            } else {
                Some(h)
            }
        },
    }
}

} // verus!
