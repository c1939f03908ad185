//! One connection's broker-side state: its identity, the inbound byte buffer
//! the codec splits frames from, and the outbound frame queue. The socket
//! itself, readiness polling and the actual reads and writes belong to the
//! reactor around the library; this type guarantees that bytes and frames
//! are queued, split and consumed exactly, however the socket splits them.

use vstd::prelude::*;
use crate::codec::{decode_frame, spec_declared_len, DecodeOutcome, MAX_FRAME_LEN};
use crate::rpc::{ConnectionId, Frame, FrameView};

verus! {

/// What one attempt to split a frame off the inbound buffer yields.
pub enum ReadOutcome {
    /// No complete frame buffered yet; read more bytes first.
    NeedMore,
    /// The buffer's declared length is absurd: fatal to the connection.
    Malformed,
    /// One complete frame's payload, removed from the buffer.
    Payload(Vec<u8>),
}

/// The broker-side state of one socket connection.
pub struct Connection {
    id: ConnectionId,
    inbound: Vec<u8>,
    outbound: Vec<Frame>,
}

/// The mathematical content of a `Connection`.
pub struct ConnectionView {
    pub id: ConnectionId,
    pub inbound: Seq<u8>,
    pub outbound: Seq<FrameView>,
}

impl View for Connection {
    type V = ConnectionView;

    closed spec fn view(&self) -> ConnectionView {
        ConnectionView {
            id: self.id,
            inbound: self.inbound@,
            outbound: self.outbound@.map_values(|f: Frame| f@),
        }
    }
}

impl Connection {
    /// A freshly accepted connection: empty buffers, nothing queued.
    pub fn new(id: ConnectionId) -> (r: Self)
        ensures
            r@ == (ConnectionView {
                id,
                inbound: Seq::<u8>::empty(),
                outbound: Seq::<FrameView>::empty(),
            }),
    {
        let r = Connection { id, inbound: Vec::new(), outbound: Vec::new() };
        proof {
            assert(r@.inbound =~= Seq::<u8>::empty());
            assert(r@.outbound =~= Seq::<FrameView>::empty());
        }
        r
    }

    /// The identity assigned at accept time.
    pub fn id(&self) -> (r: ConnectionId)
        ensures
            r == self@.id,
    {
        self.id
    }

    /// Appends a frame to the outbound queue; never blocks.
    pub fn enqueue_outbound(&mut self, frame: Frame)
        ensures
            final(self)@ == (ConnectionView {
                outbound: old(self)@.outbound.push(frame@),
                ..old(self)@
            }),
    {
        let ghost prior = self@.outbound;
        self.outbound.push(frame);
        proof {
            assert(self@.outbound =~= prior.push(self.outbound@.last()@));
        }
    }

    /// Hands the queued outbound frames to the writer, oldest first, leaving
    /// the queue empty; the reactor encodes and flushes them when the socket
    /// is writable.
    pub fn take_outbound(&mut self) -> (r: Vec<Frame>)
        ensures
            r@.map_values(|f: Frame| f@) == old(self)@.outbound,
            final(self)@ == (ConnectionView { outbound: Seq::<FrameView>::empty(), ..old(self)@ }),
    {
        let mut taken: Vec<Frame> = Vec::new();
        core::mem::swap(&mut taken, &mut self.outbound);
        proof {
            assert(self@.outbound =~= Seq::<FrameView>::empty());
        }
        taken
    }

    /// Appends bytes read from the socket to the inbound buffer, exactly as
    /// they came.
    pub fn feed_bytes(&mut self, bytes: &[u8])
        ensures
            final(self)@ == (ConnectionView {
                inbound: old(self)@.inbound + bytes@,
                ..old(self)@
            }),
    {
        let ghost prior = self@.inbound;
        self.inbound.extend_from_slice(bytes);
        proof {
            assert(self@.inbound =~= prior + bytes@);
        }
    }

    /// Splits the next complete frame off the inbound buffer, consuming
    /// exactly the bytes that formed it and leaving any trailing partial
    /// frame buffered for the next read.
    pub fn next_frame(&mut self) -> (r: ReadOutcome)
        ensures
            old(self)@.inbound.len() < 4 ==> (r is NeedMore && final(self)@ == old(self)@),
            old(self)@.inbound.len() >= 4 && spec_declared_len(old(self)@.inbound)
                > MAX_FRAME_LEN ==> (r is Malformed && final(self)@ == old(self)@),
            old(self)@.inbound.len() >= 4 && spec_declared_len(old(self)@.inbound)
                <= MAX_FRAME_LEN && old(self)@.inbound.len() < 4 + spec_declared_len(
                old(self)@.inbound,
            ) ==> (r is NeedMore && final(self)@ == old(self)@),
            old(self)@.inbound.len() >= 4 && spec_declared_len(old(self)@.inbound)
                <= MAX_FRAME_LEN && old(self)@.inbound.len() >= 4 + spec_declared_len(
                old(self)@.inbound,
            ) ==> (r matches ReadOutcome::Payload(p) && p@ == old(self)@.inbound.subrange(
                4,
                4 + spec_declared_len(old(self)@.inbound),
            ) && final(self)@ == (ConnectionView {
                inbound: old(self)@.inbound.skip(4 + spec_declared_len(old(self)@.inbound)),
                ..old(self)@
            })),
    {
        match decode_frame(&self.inbound) {
            DecodeOutcome::Incomplete => ReadOutcome::NeedMore,
            DecodeOutcome::Malformed => ReadOutcome::Malformed,
            DecodeOutcome::Decoded { payload, consumed } => {
                let ghost prior = self@.inbound;
                let n: usize = self.inbound.len();
                let mut rest: Vec<u8> = Vec::new();
                let mut i: usize = consumed;
                while i < n
                    invariant
                        consumed <= i <= n,
                        n == self.inbound@.len(),
                        self@.inbound == prior,
                        rest@ =~= prior.subrange(consumed as int, i as int),
                    decreases n - i,
                {
                    rest.push(self.inbound[i]);
                    proof {
                        assert(rest@ =~= prior.subrange(consumed as int, i + 1));
                    }
                    i = i + 1;
                }
                self.inbound = rest;
                proof {
                    assert(self@.inbound =~= prior.skip(consumed as int));
                }
                ReadOutcome::Payload(payload)
            },
        }
    }
}

} // verus!
