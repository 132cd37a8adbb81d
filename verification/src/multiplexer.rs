//! Round-robin multiplexing of incoming network request streams into one
//! ordered stream of decoded peer requests. The streams themselves live with
//! the network layer; this module decides the polling order and turns one raw
//! payload into one typed request.

use vstd::prelude::*;
use crate::codec::decode_request_payload;
use crate::codec::u32_le_bytes;
use crate::codec::u64_le_bytes;

verus! {

/// Multiplex incoming network requests: remembers how many receiver streams
/// exist and which one polling should start from next, so that every stream
/// is served in round-robin fashion.
pub struct RequestMultiplexer {
    /// Number of receiver streams being multiplexed.
    pub n_receivers: usize,
    /// Stream index at which the next polling round starts.
    pub next_poll: usize,
}

/// Multiplexing can fail in case of invalid messages.
pub struct RequestMultiplexError {
    /// The peer that sent the invalid message, as a plain identifier.
    pub peer: u64,
    /// The error that occurred.
    pub error: parity_scale_codec::Error,
}

/// One decoded peer-delivered request, attributed to its three-part key.
#[derive(Clone, Copy, PartialEq, Eq, Structural, Debug)]
pub struct PeerRequest {
    /// The peer the request came from, as a plain identifier.
    pub peer: u64,
    /// Relay block hash the request refers to.
    pub block_hash: u64,
    /// Candidate index within that block.
    pub candidate_index: u32,
    /// Validator index the request speaks for.
    pub validator_index: u32,
}

impl RequestMultiplexer {
    /// Internal invariant: the cursor points at a stream.
    pub open spec fn wf(self) -> bool {
        &&& (self.n_receivers == 0 ==> self.next_poll == 0)
        &&& (self.n_receivers > 0 ==> self.next_poll < self.n_receivers)
    }

    /// Create a new `RequestMultiplexer` over `n_receivers` streams, starting
    /// at the first.
    pub fn new(n_receivers: usize) -> (r: RequestMultiplexer)
        ensures
            r.wf(),
            r.n_receivers == n_receivers,
            r.next_poll == 0,
    {
        RequestMultiplexer { n_receivers, next_poll: 0 }
    }

    /// The order in which the streams are to be polled this round: all of
    /// them, starting at the cursor and wrapping around.
    pub fn poll_order(&self) -> (r: Vec<usize>)
        requires
            self.wf(),
            self.n_receivers <= usize::MAX / 2,
        ensures
            r@.len() == self.n_receivers,
            forall|j: int|
                0 <= j < r@.len() ==> r@[j] == (self.next_poll + j) % (self.n_receivers as int),
    {
        let n = self.n_receivers;
        let mut r: Vec<usize> = Vec::new();
        let mut j: usize = 0;
        while j < n
            invariant
                self.wf(),
                n == self.n_receivers,
                n <= usize::MAX / 2,
                j <= n,
                r@.len() == j,
                forall|i: int| 0 <= i < j ==> r@[i] == (self.next_poll + i) % (n as int),
            decreases n - j,
        {
            let mut idx = self.next_poll + j;
            if idx >= n {
                idx = idx - n;
            }
            proof {
                assert(idx == (self.next_poll + j) % (n as int)) by (nonlinear_arith)
                    requires
                        n > 0,
                        self.next_poll < n,
                        j < n,
                        idx == if self.next_poll + j >= n {
                            self.next_poll + j - n
                        } else {
                            self.next_poll + j as int
                        },
                ;
            }
            r.push(idx);
            j = j + 1;
        }
        r
    }

    /// Note that `polled` streams were polled this round; the next round
    /// starts after the last one served.
    pub fn advance_cursor(&mut self, polled: usize)
        requires
            old(self).wf(),
            old(self).n_receivers > 0,
            old(self).n_receivers <= usize::MAX / 2,
            polled <= old(self).n_receivers,
        ensures
            final(self).wf(),
            final(self).n_receivers == old(self).n_receivers,
            final(self).next_poll == (old(self).next_poll + polled) % (
            old(self).n_receivers as int),
    {
        let n = self.n_receivers;
        let mut idx = self.next_poll + polled;
        if idx >= n {
            idx = idx - n;
        }
        proof {
            assert(idx == (self.next_poll + polled) % (n as int)) by (nonlinear_arith)
                requires
                    n > 0,
                    self.next_poll < n,
                    polled <= n,
                    idx == if self.next_poll + polled >= n {
                        self.next_poll + polled - n
                    } else {
                        self.next_poll + polled as int
                    },
            ;
        }
        self.next_poll = idx;
    }
}

/// Convert a single raw incoming payload into a typed peer request: decoding
/// failures are attributed to the sending peer and surface as a
/// `RequestMultiplexError`; they never reach the approval core.
pub fn multiplex_single(peer: u64, payload: &Vec<u8>) -> (r: Result<
    PeerRequest,
    RequestMultiplexError,
>)
    ensures
        r matches Ok(m) ==> {
            &&& payload@.len() >= 16
            &&& m.peer == peer
            &&& u64_le_bytes(m.block_hash) == payload@.subrange(0, 8)
            &&& u32_le_bytes(m.candidate_index) == payload@.subrange(8, 12)
            &&& u32_le_bytes(m.validator_index) == payload@.subrange(12, 16)
        },
        r matches Err(e) ==> payload@.len() < 16 && e.peer == peer,
        r is Ok <==> payload@.len() >= 16,
{
    match decode_request_payload(payload) {
        Ok((block_hash, candidate_index, validator_index)) => Ok(
            PeerRequest { peer, block_hash, candidate_index, validator_index },
        ),
        Err(error) => Err(RequestMultiplexError { peer, error }),
    }
}

} // verus!
