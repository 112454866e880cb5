//! A model of the transport channel's decisions: when an outbound send is
//! accepted, in what order accepted frames leave, and that a closed channel
//! accepts nothing.
//!
//! The raw socket itself lives outside this crate. The layer that owns it
//! drains [`TransportChannel::take_outbound`] to transmit what was
//! accepted, and hands each complete inbound frame to the event
//! multiplexer; inbound delivery is push-based and does not pass through
//! this type.

use vstd::prelude::*;

verus! {

/// A send was not accepted: the channel is closed or its outbound buffer
/// is full.
#[derive(Clone, Copy, Debug, PartialEq, Eq, Structural)]
pub struct SendFailure;

/// The mathematical value of a [`TransportChannel`].
#[verifier::ext_equal]
pub struct TransportView {
    pub is_open: bool,
    pub capacity: nat,
    pub outbox: Seq<Seq<u8>>,
}

impl TransportView {
    /// Whether one more frame would be accepted.
    pub open spec fn can_send(self) -> bool {
        self.is_open && self.outbox.len() < self.capacity
    }
}

/// The transport channel: open or closed, with a bounded buffer of frames
/// accepted for transmission, oldest first. Closing is terminal.
pub struct TransportChannel {
    opened: bool,
    capacity: usize,
    outbox: Vec<Vec<u8>>,
}

impl View for TransportChannel {
    type V = TransportView;

    closed spec fn view(&self) -> TransportView {
        TransportView {
            is_open: self.opened,
            capacity: self.capacity as nat,
            outbox: self.outbox.deep_view(),
        }
    }
}

impl TransportChannel {
    /// Opens a channel whose buffer holds at most `capacity` frames.
    pub fn open_with_capacity(capacity: usize) -> (c: Self)
        ensures
            c@ == (TransportView {
                is_open: true,
                capacity: capacity as nat,
                outbox: Seq::<Seq<u8>>::empty(),
            }),
    {
        let c = TransportChannel { opened: true, capacity, outbox: Vec::new() };
        proof {
            assert(c@.outbox =~~= Seq::<Seq<u8>>::empty());
            assert(c@ =~~= TransportView {
                is_open: true,
                capacity: capacity as nat,
                outbox: Seq::<Seq<u8>>::empty(),
            });
        }
        c
    }

    /// Whether the channel is open.
    pub fn is_open(&self) -> (b: bool)
        ensures
            b == self@.is_open,
    {
        self.opened
    }

    /// How many frames sit in the outbound buffer.
    pub fn pending(&self) -> (n: usize)
        ensures
            n == self@.outbox.len(),
    {
        self.outbox.len()
    }

    /// Non-blocking send. The frame is accepted, and appended to the
    /// outbound buffer, exactly when the channel is open and the buffer
    /// has room; otherwise the frame is dropped and nothing changes.
    /// Never blocks, never panics.
    pub fn send(&mut self, frame: Vec<u8>) -> (r: Result<(), SendFailure>)
        ensures
            r is Ok <==> old(self)@.can_send(),
            old(self)@.can_send() ==> final(self)@ == (TransportView {
                outbox: old(self)@.outbox.push(frame@),
                ..old(self)@
            }),
            !old(self)@.can_send() ==> final(self)@ == old(self)@,
    {
        if self.opened && self.outbox.len() < self.capacity {
            let ghost before = self@.outbox;
            let ghost f = frame@;
            self.outbox.push(frame);
            proof {
                assert(self@.outbox =~~= before.push(f));
                assert(self@ =~~= TransportView { outbox: before.push(f), ..old(self)@ });
            }
            Result::Ok(())
        } else {
            Result::Err(SendFailure)
        }
    }

    /// Closes the channel. Terminal: every later send fails.
    pub fn close(&mut self)
        ensures
            final(self)@ == (TransportView { is_open: false, ..old(self)@ }),
            !final(self)@.can_send(),
    {
        self.opened = false;
        proof {
            assert(self@ =~~= TransportView { is_open: false, ..old(self)@ });
        }
    }

    /// Hands every buffered frame, oldest first, to the caller (the I/O
    /// layer that owns the socket) and empties the buffer.
    pub fn take_outbound(&mut self) -> (frames: Vec<Vec<u8>>)
        ensures
            frames.deep_view() == old(self)@.outbox,
            final(self)@ == (TransportView { outbox: Seq::<Seq<u8>>::empty(), ..old(self)@ }),
    {
        let frames = self.outbox.split_off(0);
        proof {
            assert(frames.deep_view() =~~= old(self)@.outbox);
            assert(self@.outbox =~~= Seq::<Seq<u8>>::empty());
            assert(self@ =~~= TransportView { outbox: Seq::<Seq<u8>>::empty(), ..old(self)@ });
        }
        frames
    }
}

} // verus!
