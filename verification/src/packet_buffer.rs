//! A receive buffer for packets that carry consecutive sequence numbers:
//! it holds what has arrived until the next packet in sequence can be
//! played, and says which sequence numbers to ask for again. Times are
//! ticks of a clock that does not run backwards.
use vstd::prelude::*;

verus! {

/// What is known of one sequence number that is still in the buffer.
#[derive(Clone, Copy, Debug)]
pub struct Slot {
    /// When the packet arrived, if it has.
    pub time_recv: Option<u64>,
    /// When it was last asked for again, if it was and has not arrived.
    pub time_nack: Option<u64>,
}

/// What the buffer holds, as mathematics: entry `i` of `slots` belongs to
/// the sequence number `next_seqno + i`.
pub struct BufferState {
    pub next_seqno: int,
    pub slots: Seq<Slot>,
}

/// The slot of a sequence number that has neither arrived nor been asked
/// for.
pub open spec fn empty_slot() -> Slot {
    Slot { time_recv: None, time_nack: None }
}

/// The slot after its packet has arrived at `now`: a first arrival is
/// recorded and clears the request, a later one changes nothing.
pub open spec fn arrived(slot: Slot, now: u64) -> Slot {
    if slot.time_recv is None {
        Slot { time_recv: Some(now), time_nack: None }
    } else {
        slot
    }
}

/// Whether the packet of `slot` is to be asked for at `now`: it has not
/// arrived, and was never asked for or was last asked for more than
/// `frequency` ago.
pub open spec fn is_due(slot: Slot, now: u64, frequency: u64) -> bool {
    slot.time_recv is None && match slot.time_nack {
        Some(asked) => now - asked > frequency,
        None => true,
    }
}

/// The slot after the requests of `now` have gone out.
pub open spec fn asked(slot: Slot, now: u64, frequency: u64) -> Slot {
    if is_due(slot, now, frequency) {
        Slot { time_recv: slot.time_recv, time_nack: Some(now) }
    } else {
        slot
    }
}

/// The sequence numbers to ask for at `now`, in increasing order.
pub open spec fn due_seqnos(state: BufferState, now: u64, frequency: u64) -> Seq<u32>
    decreases state.slots.len(),
{
    if state.slots.len() == 0 {
        Seq::empty()
    } else {
        let before = due_seqnos(
            BufferState { next_seqno: state.next_seqno, slots: state.slots.drop_last() },
            now,
            frequency,
        );
        if is_due(state.slots.last(), now, frequency) {
            before.push((state.next_seqno + state.slots.len() - 1) as u32)
        } else {
            before
        }
    }
}

impl BufferState {
    /// The state after the packet `seqno` has arrived at `now`. A packet
    /// that was played already changes nothing; one beyond the end of the
    /// buffer makes the buffer reach up to it.
    pub open spec fn received(self, seqno: u32, now: u64) -> BufferState {
        if seqno < self.next_seqno {
            self
        } else {
            let offset = seqno - self.next_seqno;
            let len = if offset < self.slots.len() {
                self.slots.len()
            } else {
                (offset + 1) as nat
            };
            let reached = Seq::new(
                len,
                |i: int|
                    if i < self.slots.len() {
                        self.slots[i]
                    } else {
                        empty_slot()
                    },
            );
            BufferState {
                next_seqno: self.next_seqno,
                slots: reached.update(offset, arrived(reached[offset], now)),
            }
        }
    }

    /// Whether the next packet in sequence has arrived.
    pub open spec fn is_ready(self) -> bool {
        self.slots.len() > 0 && self.slots[0].time_recv is Some
    }

    /// The state after the next packet in sequence has been played.
    pub open spec fn played(self) -> BufferState {
        BufferState { next_seqno: self.next_seqno + 1, slots: self.slots.skip(1) }
    }

    /// The state after the requests of `now` have gone out.
    pub open spec fn nacked(self, now: u64, frequency: u64) -> BufferState {
        BufferState {
            next_seqno: self.next_seqno,
            slots: Seq::new(self.slots.len(), |i: int| asked(self.slots[i], now, frequency)),
        }
    }
}

/// The receive buffer.
pub struct BufferedPackets {
    nack_frequency: u64,
    /// Next seqno to play, and the seqno of the first packet in the buffer
    /// if the buffer is non-empty.
    next_seqno: u32,
    slots: Vec<Slot>,
}

impl View for BufferedPackets {
    type V = BufferState;

    closed spec fn view(&self) -> BufferState {
        BufferState { next_seqno: self.next_seqno as int, slots: self.slots@ }
    }
}

impl BufferedPackets {
    #[verifier::type_invariant]
    spec fn fits(self) -> bool {
        self.next_seqno + self.slots.len() <= u32::MAX
    }

    /// How long to wait before asking for a packet again.
    pub closed spec fn frequency(self) -> u64 {
        self.nack_frequency
    }

    /// An empty buffer that waits for the sequence number 1.
    pub fn new(nack_frequency: u64) -> (r: Self)
        ensures
            r@ == (BufferState { next_seqno: 1, slots: Seq::empty() }),
            r.frequency() == nack_frequency,
    {
        BufferedPackets { nack_frequency, next_seqno: 1, slots: Vec::new() }
    }

    /// The sequence number of the next packet to play.
    pub fn next_seqno(&self) -> (n: u32)
        ensures
            n == self@.next_seqno,
    {
        self.next_seqno
    }

    /// Receive a packet with this sequence number. The largest sequence
    /// number there is marks the end of a stream, and is no packet.
    pub fn recv_seqno(&mut self, new_seqno: u32, now: u64)
        requires
            new_seqno < u32::MAX,
        ensures
            final(self)@ == old(self)@.received(new_seqno, now),
            final(self).frequency() == old(self).frequency(),
    {
        proof {
            use_type_invariant(&*self);
        }
        // Ignore the seqno if it has already been received.
        if new_seqno < self.next_seqno {
            return;
        }
        let offset = (new_seqno - self.next_seqno) as usize;
        let mut slots: Vec<Slot> = Vec::new();
        core::mem::swap(&mut self.slots, &mut slots);
        // Add packets to the buffer until the seqno is guaranteed to be there.
        while slots.len() <= offset
            invariant
                slots.len() <= offset + 1 || slots.len() == old(self).slots.len(),
                old(self).slots.len() <= slots.len(),
                self.next_seqno == old(self).next_seqno,
                self.nack_frequency == old(self).nack_frequency,
                self.slots.len() == 0,
                offset == new_seqno - self.next_seqno,
                old(self).next_seqno + old(self).slots.len() <= u32::MAX,
                forall|i: int|
                    0 <= i < slots.len() ==> slots[i] == if i < old(self).slots.len() {
                        old(self).slots[i]
                    } else {
                        empty_slot()
                    },
            decreases offset + 1 - slots.len(),
        {
            slots.push(Slot { time_recv: None, time_nack: None });
        }
        // Mark the new packet received.
        let slot = slots[offset];
        if slot.time_recv.is_none() {
            slots.set(offset, Slot { time_recv: Some(now), time_nack: None });
        }
        core::mem::swap(&mut self.slots, &mut slots);
        proof {
            assert(self@.slots =~= old(self)@.received(new_seqno, now).slots);
        }
    }

    /// Return the received time of the next packet to play if the next packet
    /// in the sequence is available. Removes that packet from the buffer.
    pub fn pop_seqno(&mut self) -> (r: Option<u64>)
        ensures
            final(self).frequency() == old(self).frequency(),
            match r {
                Some(time_recv) => old(self)@.is_ready() && old(self)@.slots[0].time_recv == Some(
                    time_recv,
                ) && final(self)@ == old(self)@.played(),
                None => !old(self)@.is_ready() && final(self)@ == old(self)@,
            },
    {
        proof {
            use_type_invariant(&*self);
        }
        if self.slots.len() == 0 {
            return None;
        }
        let first = self.slots[0];
        match first.time_recv {
            None => None,
            Some(time_recv) => {
                let mut slots: Vec<Slot> = Vec::new();
                core::mem::swap(&mut self.slots, &mut slots);
                let _ = slots.remove(0);
                self.next_seqno = self.next_seqno + 1;
                core::mem::swap(&mut self.slots, &mut slots);
                proof {
                    assert(self@.slots =~= old(self)@.played().slots);
                }
                Some(time_recv)
            },
        }
    }

    /// The sequence numbers to ask for again at `now`, in increasing order:
    /// those of the packets in the buffer that have not arrived and were
    /// never asked for, or were last asked for more than the frequency ago.
    /// Records `now` as the time of their last request.
    pub fn nacks_due(&mut self, now: u64) -> (nacks: Vec<u32>)
        ensures
            final(self).frequency() == old(self).frequency(),
            nacks@ == due_seqnos(old(self)@, now, old(self).frequency()),
            final(self)@ == old(self)@.nacked(now, old(self).frequency()),
    {
        proof {
            use_type_invariant(&*self);
        }
        let frequency = self.nack_frequency;
        let first = self.next_seqno;
        let mut nacks: Vec<u32> = Vec::new();
        let mut i: usize = 0;
        let size = self.slots.len();
        while i < size
            invariant
                i <= size,
                size == self.slots.len(),
                size == old(self).slots.len(),
                first == old(self).next_seqno,
                first == self.next_seqno,
                first + size <= u32::MAX,
                frequency == old(self).nack_frequency,
                self.nack_frequency == old(self).nack_frequency,
                nacks@ == due_seqnos(
                    BufferState {
                        next_seqno: first as int,
                        slots: old(self).slots@.take(i as int),
                    },
                    now,
                    frequency,
                ),
                forall|k: int|
                    0 <= k < i ==> self.slots[k] == asked(old(self).slots[k], now, frequency),
                forall|k: int| i <= k < size ==> self.slots[k] == old(self).slots[k],
            decreases size - i,
        {
            let slot = self.slots[i];
            let due = slot.time_recv.is_none() && match slot.time_nack {
                Some(asked) => now >= asked && now - asked > frequency,
                None => true,
            };
            proof {
                assert(old(self).slots@.take(i + 1).drop_last() =~= old(self).slots@.take(
                    i as int,
                ));
            }
            if due {
                nacks.push(first + i as u32);
                self.slots[i] = Slot { time_recv: slot.time_recv, time_nack: Some(now) };
            }
            i = i + 1;
        }
        proof {
            assert(old(self).slots@.take(size as int) =~= old(self).slots@);
            assert(self@.slots =~= old(self)@.nacked(now, frequency).slots);
        }
        nacks
    }
}

} // verus!
