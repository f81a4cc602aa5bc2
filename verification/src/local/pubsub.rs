//! A channel between processes of one host: a ring, and what is known of its messages.
use crate::local::ring::{
    payload_capacity_from_stride, plan_write, RingBuffer, RingError, RingErrorKind, RingView,
    SlotView, SLOT_DATA_OFFSET,
};
#[allow(unused_imports)]
use crate::local::ring;
use std::collections::HashMap;
use vstd::prelude::*;

verus! {

/// A channel.
pub struct LocalPubSub {
    pub ring_buf: RingBuffer,
    /// The descriptor by which readers in this process are woken.
    pub eventfd: i32,
    /// That by which readers in another process are woken; below zero if there is none.
    pub cross_process_eventfd: i32,
    /// When each message was published.
    pub timestamps: HashMap<u64, u64>,
    /// Who published each message, where that is known.
    pub publisher_gids: HashMap<u64, u64>,
    /// The messages whose slots are lent out, by where their bytes start.
    pub loaned_sequences: HashMap<usize, u64>,
}

/// What a channel holds.
#[verifier::ext_equal]
pub struct ChannelView {
    pub ring: RingView,
    pub eventfd: i32,
    pub cross_process_eventfd: i32,
    pub timestamps: Map<u64, u64>,
    pub gids: Map<u64, u64>,
    pub loans: Map<usize, u64>,
}

impl View for LocalPubSub {
    type V = ChannelView;

    open spec fn view(&self) -> ChannelView {
        ChannelView {
            ring: self.ring_buf@,
            eventfd: self.eventfd,
            cross_process_eventfd: self.cross_process_eventfd,
            timestamps: self.timestamps@,
            gids: self.publisher_gids@,
            loans: self.loaned_sequences@,
        }
    }
}

/// Whether the bytes of a slot of the ring start here.
pub open spec fn starts_slot(r: RingView, at: int) -> bool {
    &&& at >= SLOT_DATA_OFFSET
    &&& (at - SLOT_DATA_OFFSET) % r.slot_size as int == 0
    &&& (at - SLOT_DATA_OFFSET) / (r.slot_size as int) < r.slot_count
}

impl ChannelView {
    /// Whether what is lent out are slots of the ring.
    pub open spec fn wf(self) -> bool {
        &&& self.ring.slot_size >= SLOT_DATA_OFFSET
        &&& forall|at: usize| #[trigger]
            self.loans.contains_key(at) ==> starts_slot(self.ring, at as int)
    }
}

/// The channel with one message more.
pub open spec fn published(c: ChannelView, data: Seq<u8>, gid: u64, now: u64) -> ChannelView {
    let seq = c.ring.write_index;
    ChannelView {
        ring: ring::written(c.ring, data),
        timestamps: c.timestamps.insert(seq, now),
        gids: if gid != 0 {
            c.gids.insert(seq, gid)
        } else {
            c.gids
        },
        ..c
    }
}

/// Where the bytes of the slot of a message start.
pub open spec fn bytes_at(r: RingView, seq: u64) -> int {
    r.slot_of(seq) * r.slot_size + SLOT_DATA_OFFSET
}

/// The channel with the next slot lent out.
pub open spec fn lent(c: ChannelView) -> ChannelView {
    let seq = c.ring.write_index;
    let i = c.ring.slot_of(seq);
    ChannelView {
        ring: RingView {
            write_index: (seq + 1) as u64,
            slots: c.ring.slots.update(i, SlotView { seq: u64::MAX, len: 0, ..c.ring.slots[i] }),
            ..c.ring
        },
        loans: c.loans.insert(bytes_at(c.ring, seq) as usize, seq),
        ..c
    }
}

/// The channel with the slot whose bytes start at `at` given back, with a message.
pub open spec fn committed(c: ChannelView, at: usize, data: Seq<u8>) -> ChannelView {
    let i = (at - SLOT_DATA_OFFSET) / c.ring.slot_size as int;
    ChannelView {
        ring: RingView {
            slots: c.ring.slots.update(i, ring::filled(c.ring.slots[i], c.loans[at], data)),
            ..c.ring
        },
        loans: c.loans.remove(at),
        ..c
    }
}

/// The message of a number, for who takes it where it lies: it must not be read yet.
pub open spec fn takeable(r: RingView, seq: u64) -> Option<Seq<u8>> {
    let s = r.slots[r.slot_of(seq)];
    if r.read_index <= seq < r.write_index && s.seq == seq && s.len > 0 {
        Some(s.data.subrange(0, s.len as int))
    } else {
        None
    }
}

/// The descriptors that are written to when there is a new message.
pub open spec fn woken(c: ChannelView) -> Seq<i32> {
    if c.cross_process_eventfd >= 0 && c.cross_process_eventfd != c.eventfd {
        seq![c.eventfd, c.cross_process_eventfd]
    } else {
        seq![c.eventfd]
    }
}

proof fn lemma_slot_of_offset(slot: int, size: int, count: int)
    requires
        0 <= slot < count,
        size > 0,
    ensures
        (slot * size) % size == 0,
        (slot * size) / size == slot,
{
    vstd::arithmetic::div_mod::lemma_fundamental_div_mod_converse(slot * size, size, slot, 0);
}

proof fn lemma_shape_kept(a: ChannelView, b: ChannelView)
    requires
        a.wf(),
        b.loans == a.loans,
        b.ring.slot_size == a.ring.slot_size,
        b.ring.slot_count == a.ring.slot_count,
    ensures
        b.wf(),
{
    assert forall|at: usize| #[trigger] b.loans.contains_key(at) implies starts_slot(
        b.ring,
        at as int,
    ) by {
        assert(a.loans.contains_key(at));
    }
}

impl LocalPubSub {
    /// Whether the channel has its shape.
    pub open spec fn wf(self) -> bool {
        self.ring_buf.wf() && self@.wf()
    }

    /// A channel over a ring.
    pub fn over(ring_buf: RingBuffer, eventfd: i32, cross_process_eventfd: i32) -> (r: LocalPubSub)
        requires
            ring_buf.wf(),
            ring_buf@.slot_size >= SLOT_DATA_OFFSET,
        ensures
            r.wf(),
            r@ == (ChannelView {
                ring: ring_buf@,
                eventfd,
                cross_process_eventfd,
                timestamps: Map::empty(),
                gids: Map::empty(),
                loans: Map::empty(),
            }),
    {
        broadcast use vstd::std_specs::hash::group_hash_axioms;

        LocalPubSub {
            ring_buf,
            eventfd,
            cross_process_eventfd,
            timestamps: HashMap::new(),
            publisher_gids: HashMap::new(),
            loaned_sequences: HashMap::new(),
        }
    }

    /// A channel with a ring of its own, of empty slots, but no more than a ring may have.
    pub fn new(slots: u32, slot_size: u32, eventfd: i32) -> (r: Result<LocalPubSub, RingError>)
        requires
            ring::capped(slots) * ring::stride_of(slot_size as nat) <= usize::MAX,
        ensures
            match r {
                Ok(c) => slots > 0 && ring::stride_of(slot_size as nat) <= u32::MAX && c.wf() && c@
                    == (ChannelView {
                    ring: ring::empty_ring(
                        ring::capped(slots),
                        ring::stride_of(slot_size as nat) as u32,
                    ),
                    eventfd,
                    cross_process_eventfd: -1i32,
                    timestamps: Map::empty(),
                    gids: Map::empty(),
                    loans: Map::empty(),
                }),
                Err(e) => if slots == 0 {
                    ring::says(e, RingErrorKind::InvalidInput, "slot count must be non-zero"@)
                } else {
                    ring::stride_of(slot_size as nat) > u32::MAX && ring::says(
                        e,
                        RingErrorKind::InvalidInput,
                        "slot size overflow"@,
                    )
                },
            },
    {
        let ring_buf = RingBuffer::create(slots, slot_size)?;
        Ok(Self::over(ring_buf, eventfd, -1))
    }

    /// Publishes a message of a known publisher. Its number.
    pub fn publish_with_gid(&mut self, data: &[u8], publisher_gid: u64, now: u64) -> (r: Result<
        u64,
        &'static str,
    >)
        requires
            old(self).wf(),
            old(self)@.ring.write_index < u64::MAX,
        ensures
            final(self).wf(),
            if data@.len() > ring::capacity_of(old(self)@.ring.slot_size as nat) {
                (r matches Err(e) && e@ == "data exceeds slot size"@) && final(self)@ == old(self)@
            } else {
                r == Ok::<u64, &'static str>(old(self)@.ring.write_index) && final(self)@
                    == published(old(self)@, data@, publisher_gid, now)
            },
    {
        broadcast use vstd::std_specs::hash::group_hash_axioms;

        let seq: u64 = self.ring_buf.write(data)?;
        self.timestamps.insert(seq, now);
        if publisher_gid != 0 {
            self.publisher_gids.insert(seq, publisher_gid);
        }
        proof {
            lemma_shape_kept(old(self)@, self@);
        }
        Ok(seq)
    }

    /// Publishes a message. Its number.
    pub fn publish(&mut self, data: &[u8], now: u64) -> (r: Result<u64, &'static str>)
        requires
            old(self).wf(),
            old(self)@.ring.write_index < u64::MAX,
        ensures
            final(self).wf(),
            if data@.len() > ring::capacity_of(old(self)@.ring.slot_size as nat) {
                (r matches Err(e) && e@ == "data exceeds slot size"@) && final(self)@ == old(self)@
            } else {
                r == Ok::<u64, &'static str>(old(self)@.ring.write_index) && final(self)@
                    == published(old(self)@, data@, 0, now)
            },
    {
        self.publish_with_gid(data, 0, now)
    }

    /// The descriptors that are to be written to when there is a new message.
    pub fn signal(&self) -> (r: Vec<i32>)
        ensures
            r@ == woken(self@),
    {
        let mut r: Vec<i32> = Vec::new();
        r.push(self.eventfd);
        if self.cross_process_eventfd >= 0 && self.cross_process_eventfd != self.eventfd {
            r.push(self.cross_process_eventfd);
        }
        proof {
            assert(r@ =~= woken(self@));
        }
        r
    }

    /// Copies a message out and marks it as read.
    pub fn receive(&mut self, sequence_number: u64, out: &mut Vec<u8>) -> (r: Result<
        usize,
        &'static str,
    >)
        requires
            old(self).wf(),
        ensures
            final(self).wf(),
            ring::copied(old(self)@.ring, sequence_number, old(out)@, final(out)@, r),
            final(self)@ == (ChannelView {
                ring: if r is Ok {
                    RingView {
                        read_index: ring::read_on(old(self)@.ring.read_index, sequence_number),
                        ..old(self)@.ring
                    }
                } else {
                    old(self)@.ring
                },
                ..old(self)@
            }),
    {
        let r = self.ring_buf.read(sequence_number, out);
        proof {
            lemma_shape_kept(old(self)@, self@);
        }
        r
    }

    /// Copies a message out without marking it as read.
    pub fn receive_peek(&self, sequence_number: u64, out: &mut Vec<u8>) -> (r: Result<
        usize,
        &'static str,
    >)
        requires
            self.wf(),
        ensures
            ring::copied(self@.ring, sequence_number, old(out)@, final(out)@, r),
    {
        self.ring_buf.read_without_consuming(sequence_number, out)
    }

    /// The length of a message.
    pub fn message_size(&self, sequence_number: u64) -> (r: Result<usize, &'static str>)
        requires
            self.wf(),
        ensures
            match ring::message_at(self@.ring, sequence_number) {
                Ok(m) => r == Ok::<usize, &'static str>(m.len() as usize) && m.len() > 0,
                Err(f) => ring::in_words(r, f),
            },
    {
        self.ring_buf.slot_data_size(sequence_number)
    }

    /// The descriptor by which a reader waits: that which a writer in another process
    /// signals, where there is one.
    pub fn event_fd(&self) -> (r: i32)
        ensures
            r == (if self@.cross_process_eventfd >= 0 {
                self@.cross_process_eventfd
            } else {
                self@.eventfd
            }),
    {
        if self.cross_process_eventfd >= 0 {
            self.cross_process_eventfd
        } else {
            self.eventfd
        }
    }

    /// The number of the next message.
    pub fn current_seq(&self) -> (r: u64)
        ensures
            r == self@.ring.write_index,
    {
        self.ring_buf.current_seq()
    }

    /// The longest message that the channel takes.
    pub fn payload_capacity(&self) -> (r: usize)
        ensures
            r == ring::capacity_of(self@.ring.slot_size as nat),
    {
        payload_capacity_from_stride(self.ring_buf.slot_size)
    }

    /// The oldest message that may still be there.
    pub fn oldest_available_seq(&self) -> (r: u64)
        ensures
            r == ring::oldest_seq(self@.ring),
    {
        self.ring_buf.oldest_available_seq()
    }

    /// Notes that a new publisher begins here.
    pub fn mark_generation(&mut self)
        requires
            old(self).wf(),
        ensures
            final(self).wf(),
            final(self)@ == (ChannelView {
                ring: RingView { epoch: old(self)@.ring.write_index, ..old(self)@.ring },
                ..old(self)@
            }),
    {
        self.ring_buf.mark_generation();
    }

    /// The number of the first message of the present publisher.
    pub fn generation_start(&self) -> (r: u64)
        ensures
            r == self@.ring.epoch,
    {
        self.ring_buf.generation_start()
    }

    /// Whether a reader that has come to a message finds something there or behind
    /// it.
    pub fn data_available_from(&self, sequence_number: u64) -> (r: bool)
        requires
            self.wf(),
        ensures
            r == ring::available_from(self@.ring, sequence_number),
    {
        self.ring_buf.data_available_from(sequence_number)
    }

    /// Whether there are messages that are not known to be read.
    pub fn data_available(&self) -> (r: bool)
        ensures
            r == (self@.ring.write_index > self@.ring.read_index),
    {
        self.ring_buf.data_available()
    }

    /// Marks all messages as read.
    pub fn skip_all_pending(&mut self)
        requires
            old(self).wf(),
        ensures
            final(self).wf(),
            final(self)@ == (ChannelView {
                ring: RingView { read_index: old(self)@.ring.write_index, ..old(self)@.ring },
                ..old(self)@
            }),
    {
        self.ring_buf.read_index = self.ring_buf.write_index;
    }

    /// Lends out the next slot, to be written in place: where its bytes start, and how
    /// many may be written. Nothing where it would take more than a slot, or where the
    /// slot holds a message that is not read.
    pub fn borrow_buffer(&mut self, max_size: usize) -> (r: Option<(usize, usize)>)
        requires
            old(self).wf(),
            old(self)@.ring.read_index <= old(self)@.ring.write_index < u64::MAX,
            old(self)@.ring.slot_count * old(self)@.ring.slot_size + SLOT_DATA_OFFSET <= usize::MAX,
        ensures
            final(self).wf(),
            if max_size > ring::capacity_of(old(self)@.ring.slot_size as nat)
                || old(self)@.ring.write_index - old(self)@.ring.read_index
                >= old(self)@.ring.slot_count {
                r is None && final(self)@ == old(self)@
            } else {
                r == Some(
                    (
                        bytes_at(old(self)@.ring, old(self)@.ring.write_index) as usize,
                        max_size,
                    ),
                ) && final(self)@ == lent(old(self)@)
            },
    {
        broadcast use vstd::std_specs::hash::group_hash_axioms;

        if max_size > payload_capacity_from_stride(self.ring_buf.slot_size) {
            return None;
        }
        let write_idx: u64 = self.ring_buf.write_index;
        if write_idx - self.ring_buf.read_index >= self.ring_buf.slot_count as u64 {
            return None;
        }
        let ghost before = self@;
        let plan = plan_write(
            self.ring_buf.slot_count,
            self.ring_buf.slot_size,
            write_idx,
            self.ring_buf.read_index,
        );
        let ghost slot = plan.slot as int;
        self.ring_buf.write_index = write_idx + 1;
        proof {
            assert(before.ring.slots[slot] == self.ring_buf.slots@[slot]@);
        }
        self.ring_buf.slots[plan.slot].seq = u64::MAX;
        self.ring_buf.slots[plan.slot].len = 0;
        let at: usize = plan.offset + SLOT_DATA_OFFSET;
        self.loaned_sequences.insert(at, write_idx);
        proof {
            assert(self@.ring.slots =~= lent(before).ring.slots);
            lemma_slot_of_offset(
                slot,
                before.ring.slot_size as int,
                before.ring.slot_count as int,
            );
            assert(at == bytes_at(before.ring, write_idx));
            assert(starts_slot(before.ring, at as int));
            assert forall|k: usize| #[trigger] self@.loans.contains_key(k) implies starts_slot(
                self@.ring,
                k as int,
            ) by {
                if k != at {
                    assert(before.loans.contains_key(k));
                }
            }
        }
        Some((at, max_size))
    }

    /// Gives back a slot that was lent out, with the message that was written into it.
    /// Whether it was lent out and the message fits.
    pub fn commit_buffer(&mut self, at: usize, data: &[u8]) -> (r: bool)
        requires
            old(self).wf(),
        ensures
            final(self).wf(),
            r == (at as int % old(self)@.ring.slot_size as int == SLOT_DATA_OFFSET && data@.len()
                <= ring::capacity_of(old(self)@.ring.slot_size as nat) && old(
                self,
            )@.loans.contains_key(at)),
            final(self)@ == (if r {
                committed(old(self)@, at, data@)
            } else {
                old(self)@
            }),
    {
        broadcast use vstd::std_specs::hash::group_hash_axioms;

        let slot_size: usize = self.ring_buf.slot_size as usize;
        if at % slot_size != SLOT_DATA_OFFSET || data.len() > payload_capacity_from_stride(
            self.ring_buf.slot_size,
        ) {
            return false;
        }
        let ghost before = self@;
        let sequence: u64 = match self.loaned_sequences.remove(&at) {
            Some(s) => s,
            None => {
                proof {
                    assert(self@.loans =~= before.loans);
                }
                return false;
            },
        };
        proof {
            assert(before.loans.contains_key(at));
        }
        let slot: usize = (at - SLOT_DATA_OFFSET) / slot_size;
        proof {
            assert(before.ring.slots[slot as int] == self.ring_buf.slots@[slot as int]@);
        }
        self.ring_buf.fill(slot, data);
        self.ring_buf.slots[slot].len = data.len() as u32;
        self.ring_buf.slots[slot].seq = sequence;
        proof {
            assert(self@.ring.slots =~= committed(before, at, data@).ring.slots);
            assert(self@.loans =~= before.loans.remove(at));
            assert forall|k: usize| #[trigger] self@.loans.contains_key(k) implies starts_slot(
                self@.ring,
                k as int,
            ) by {
                assert(before.loans.contains_key(k));
            }
        }
        true
    }

    /// Takes a message that is not read, and marks it as read.
    pub fn take_loaned(&mut self, sequence_number: u64) -> (r: Option<Vec<u8>>)
        requires
            old(self).wf(),
        ensures
            final(self).wf(),
            match takeable(old(self)@.ring, sequence_number) {
                Some(m) => (r matches Some(v) && v@ == m) && final(self)@ == (ChannelView {
                    ring: RingView {
                        read_index: (sequence_number + 1) as u64,
                        ..old(self)@.ring
                    },
                    ..old(self)@
                }),
                None => r is None && final(self)@ == old(self)@,
            },
    {
        if sequence_number >= self.ring_buf.write_index {
            return None;
        }
        if sequence_number < self.ring_buf.read_index {
            return None;
        }
        let slot: usize = (sequence_number % self.ring_buf.slot_count as u64) as usize;
        proof {
            assert(self@.ring.slots[slot as int] == self.ring_buf.slots@[slot as int]@);
        }
        if self.ring_buf.slots[slot].seq != sequence_number || self.ring_buf.slots[slot].len == 0 {
            return None;
        }
        let n: usize = self.ring_buf.slots[slot].len as usize;
        let mut out: Vec<u8> = Vec::new();
        crate::bytes::append_slice(
            &mut out,
            vstd::slice::slice_subrange(self.ring_buf.slots[slot].data.as_slice(), 0, n),
        );
        self.ring_buf.read_index = sequence_number + 1;
        proof {
            assert(out@ =~= takeable(old(self)@.ring, sequence_number)->0);
        }
        Some(out)
    }
}

/// A message that was written in place, in the slot that was lent out for it, is taken
/// by its number, byte for byte.
pub proof fn law_loaned_message_is_taken(c: ChannelView, data: Seq<u8>)
    requires
        c.wf(),
        c.ring.wf(),
        c.ring.read_index <= c.ring.write_index < u64::MAX,
        c.ring.slot_size > SLOT_DATA_OFFSET,
        c.ring.slot_count * c.ring.slot_size + SLOT_DATA_OFFSET <= usize::MAX,
        0 < data.len() <= ring::capacity_of(c.ring.slot_size as nat),
    ensures
        ({
            let seq = c.ring.write_index;
            let at = bytes_at(c.ring, seq) as usize;
            &&& at as int % c.ring.slot_size as int == SLOT_DATA_OFFSET
            &&& lent(c).loans.contains_key(at)
            &&& takeable(committed(lent(c), at, data).ring, seq) == Some(data)
        }),
{
    let seq = c.ring.write_index;
    let i = c.ring.slot_of(seq);
    let size = c.ring.slot_size as int;
    lemma_slot_of_offset(i, size, c.ring.slot_count as int);
    assert(i * size + size <= c.ring.slot_count * size) by (nonlinear_arith)
        requires
            0 <= i < c.ring.slot_count,
            size > 0,
    ;
    let at = bytes_at(c.ring, seq) as usize;
    assert(at == i * size + SLOT_DATA_OFFSET);
    vstd::arithmetic::div_mod::lemma_fundamental_div_mod_converse(
        at as int,
        size,
        i,
        SLOT_DATA_OFFSET as int,
    );
    let done = committed(lent(c), at, data);
    assert((at - SLOT_DATA_OFFSET) / size == i);
    assert(done.ring.slots[i].data.subrange(0, data.len() as int) =~= data);
}

/// A published message is read back by its number, with its time and, where it has one,
/// its publisher; what is noted of other messages stays, and so do loans and
/// descriptors.
pub proof fn law_published_message_is_noted(
    c: ChannelView,
    data: Seq<u8>,
    gid: u64,
    now: u64,
    other: u64,
)
    requires
        c.ring.wf(),
        c.ring.write_index < u64::MAX,
        0 < data.len() <= ring::capacity_of(c.ring.slot_size as nat),
    ensures
        ({
            let p = published(c, data, gid, now);
            let seq = c.ring.write_index;
            &&& ring::message_at(p.ring, seq) == Ok::<_, ring::ReadFault>(data)
            &&& p.ring.write_index == seq + 1
            &&& p.timestamps.contains_key(seq) && p.timestamps[seq] == now
            &&& gid != 0 ==> p.gids.contains_key(seq) && p.gids[seq] == gid
            &&& gid == 0 ==> p.gids == c.gids
            &&& other != seq ==> p.timestamps.contains_key(other) == c.timestamps.contains_key(
                other,
            ) && p.gids.contains_key(other) == c.gids.contains_key(other)
            &&& other != seq && c.timestamps.contains_key(other) ==> p.timestamps[other]
                == c.timestamps[other]
            &&& other != seq && c.gids.contains_key(other) ==> p.gids[other] == c.gids[other]
            &&& p.loans == c.loans
            &&& p.eventfd == c.eventfd
            &&& p.cross_process_eventfd == c.cross_process_eventfd
        }),
{
    ring::law_written_message_is_read(c.ring, data);
}

/// A slot that is lent out holds no message until it is given back: nobody reads it, and
/// every message in another slot stays.
pub proof fn law_lent_slot_is_hidden(c: ChannelView, seq: u64)
    requires
        c.ring.wf(),
        c.ring.write_index < u64::MAX,
    ensures
        lent(c).ring.write_index == c.ring.write_index + 1,
        takeable(lent(c).ring, c.ring.write_index) is None,
        ring::message_at(lent(c).ring, c.ring.write_index) is Err,
        lent(c).loans.contains_value(c.ring.write_index),
        lent(c).ring.read_index == c.ring.read_index,
        seq as int % c.ring.slot_count as int != c.ring.write_index as int
            % c.ring.slot_count as int ==> lent(c).ring.slots[c.ring.slot_of(seq)]
            == c.ring.slots[c.ring.slot_of(seq)],
{
    let at = bytes_at(c.ring, c.ring.write_index) as usize;
    assert(lent(c).loans.contains_key(at));
    assert(lent(c).loans[at] == c.ring.write_index);
}

/// A message that is taken is one that is there and not read yet: the bytes of its own
/// slot, as many as its length says.
pub proof fn law_taken_exactly(r: RingView, seq: u64)
    requires
        r.wf(),
    ensures
        takeable(r, seq) is Some <==> r.read_index <= seq && seq < r.write_index && r.slots[seq
            as int % r.slot_count as int].seq == seq && r.slots[seq as int
            % r.slot_count as int].len > 0,
        takeable(r, seq) matches Some(m) ==> m == r.slots[seq as int
            % r.slot_count as int].data.subrange(
            0,
            r.slots[seq as int % r.slot_count as int].len as int,
        ),
        takeable(r, seq) matches Some(m) ==> (r.write_index <= seq + r.slot_count
            ==> ring::message_at(r, seq) == Ok::<_, ring::ReadFault>(m)),
{
}

/// Giving back one slot ends its own loan and changes its own slot only.
pub proof fn law_commit_ends_its_own_loan(c: ChannelView, at: usize, data: Seq<u8>, other: usize, i: int)
    requires
        c.wf(),
        c.ring.wf(),
        c.loans.contains_key(at),
        c.loans.contains_key(other),
        other != at,
        0 <= i < c.ring.slot_count,
    ensures
        !committed(c, at, data).loans.contains_key(at),
        committed(c, at, data).loans.contains_key(other),
        committed(c, at, data).loans[other] == c.loans[other],
        i * c.ring.slot_size + 16 != at ==> committed(c, at, data).ring.slots[i] == c.ring.slots[i],
        committed(c, at, data).ring.write_index == c.ring.write_index,
        committed(c, at, data).ring.read_index == c.ring.read_index,
{
    let size = c.ring.slot_size as int;
    assert(starts_slot(c.ring, at as int));
    let k = (at - SLOT_DATA_OFFSET) / size;
    vstd::arithmetic::div_mod::lemma_fundamental_div_mod(at - SLOT_DATA_OFFSET, size);
    assert(k * size == size * k) by (nonlinear_arith);
    if i == k {
        assert(i * size + 16 == at);
    }
}

/// A new message wakes the readers of this process always, those of another process
/// where there are any, and nobody twice.
pub proof fn law_readers_are_woken_once(c: ChannelView)
    ensures
        woken(c).contains(c.eventfd),
        c.cross_process_eventfd >= 0 ==> woken(c).contains(c.cross_process_eventfd),
        woken(c).no_duplicates(),
        forall|fd: i32| #[trigger]
            woken(c).contains(fd) ==> fd == c.eventfd || fd == c.cross_process_eventfd,
        c.cross_process_eventfd < 0 && c.eventfd >= 0 ==> !woken(c).contains(
            c.cross_process_eventfd,
        ),
{
    assert(woken(c)[0] == c.eventfd);
    if c.cross_process_eventfd >= 0 && c.cross_process_eventfd != c.eventfd {
        assert(woken(c)[1] == c.cross_process_eventfd);
    }
}

} // verus!
