//! A ring of slots: a writer puts each message into the next slot, over the oldest
//! one, and a reader finds a message by its number.
use vstd::prelude::*;

verus! {

/// No ring has more slots.
pub const MAX_RING_SLOTS: usize = 4096;

/// Where the number of its message stands in a slot.
pub const SLOT_SEQ_OFFSET: usize = 0;

/// Where the length of its message stands in a slot.
pub const SLOT_LEN_OFFSET: usize = 8;

/// Where its message stands in a slot.
pub const SLOT_DATA_OFFSET: usize = 16;

/// The kind of an error.
#[derive(Debug, Clone, Copy, PartialEq, Eq, Structural)]
pub enum RingErrorKind {
    InvalidInput,
    InvalidData,
    UnexpectedEof,
    StorageFull,
    NotFound,
    AlreadyExists,
    Other,
}

/// An error: its kind and what it says.
#[derive(Debug)]
pub struct RingError {
    pub kind: RingErrorKind,
    pub message: String,
}

/// Whether an error has this kind and says this.
pub open spec fn says(e: RingError, kind: RingErrorKind, message: Seq<char>) -> bool {
    e.kind == kind && e.message@ == message
}

/// The size of a slot for messages of up to `payload` bytes: a multiple of eight.
pub open spec fn stride_of(payload: nat) -> nat {
    (payload + SLOT_DATA_OFFSET as nat + 7) / 8 * 8
}

/// The size of a slot for messages of up to `payload_size` bytes.
pub fn slot_stride_for_payload(payload_size: u32) -> (r: Result<u32, RingError>)
    ensures
        match r {
            Ok(s) => s == stride_of(payload_size as nat),
            Err(e) => stride_of(payload_size as nat) > u32::MAX && says(
                e,
                RingErrorKind::InvalidInput,
                "slot size overflow"@,
            ),
        },
{
    let aligned: u64 = (payload_size as u64 + SLOT_DATA_OFFSET as u64 + 7) / 8 * 8;
    if aligned > u32::MAX as u64 {
        Err(
            RingError {
                kind: RingErrorKind::InvalidInput,
                message: "slot size overflow".to_owned(),
            },
        )
    } else {
        Ok(aligned as u32)
    }
}

/// The longest message that a slot of this size takes.
pub open spec fn capacity_of(stride: nat) -> nat {
    if stride < SLOT_DATA_OFFSET {
        0
    } else {
        (stride - SLOT_DATA_OFFSET) as nat
    }
}

/// The longest message that a slot of this size takes.
pub fn payload_capacity_from_stride(slot_stride: u32) -> (r: usize)
    ensures
        r == capacity_of(slot_stride as nat),
{
    let s: usize = slot_stride as usize;
    if s < SLOT_DATA_OFFSET {
        0
    } else {
        s - SLOT_DATA_OFFSET
    }
}

/// Every payload fits the slot that is made for it.
pub proof fn law_payload_fits_its_slot(payload: nat)
    ensures
        capacity_of(stride_of(payload)) >= payload,
{
}

/// One slot.
pub struct RingSlot {
    /// The number of the message in the slot.
    pub seq: u64,
    /// The length of the message in the slot.
    pub len: u32,
    /// The bytes of the slot, of which the message takes the first.
    pub data: Vec<u8>,
}

/// What a slot holds.
#[verifier::ext_equal]
pub struct SlotView {
    pub seq: u64,
    pub len: u32,
    pub data: Seq<u8>,
}

impl View for RingSlot {
    type V = SlotView;

    open spec fn view(&self) -> SlotView {
        SlotView { seq: self.seq, len: self.len, data: self.data@ }
    }
}

/// A ring of slots.
pub struct RingBuffer {
    pub slot_count: u32,
    pub slot_size: u32,
    /// The number of the next message.
    pub write_index: u64,
    /// The number of the first message that is not known to be read.
    pub read_index: u64,
    /// The number of the first message of the present publisher.
    pub epoch: u64,
    pub slots: Vec<RingSlot>,
}

/// What a ring holds.
#[verifier::ext_equal]
pub struct RingView {
    pub slot_count: u32,
    pub slot_size: u32,
    pub write_index: u64,
    pub read_index: u64,
    pub epoch: u64,
    pub slots: Seq<SlotView>,
}

/// What a list of slots holds.
pub open spec fn slots_view(s: Seq<RingSlot>) -> Seq<SlotView> {
    Seq::new(s.len(), |i: int| s[i]@)
}

impl View for RingBuffer {
    type V = RingView;

    open spec fn view(&self) -> RingView {
        RingView {
            slot_count: self.slot_count,
            slot_size: self.slot_size,
            write_index: self.write_index,
            read_index: self.read_index,
            epoch: self.epoch,
            slots: slots_view(self.slots@),
        }
    }
}

impl RingView {
    /// Whether the ring has its shape: as many slots as it says, each with room for a
    /// message, and no message longer than its slot.
    pub open spec fn wf(self) -> bool {
        &&& self.slot_count > 0
        &&& self.slot_size > 0
        &&& self.slots.len() == self.slot_count
        &&& forall|i: int|
            0 <= i < self.slots.len() ==> (#[trigger] self.slots[i]).data.len() == capacity_of(
                self.slot_size as nat,
            ) && self.slots[i].len <= capacity_of(self.slot_size as nat)
    }

    /// The slot of a message.
    pub open spec fn slot_of(self, seq: u64) -> int {
        seq as int % self.slot_count as int
    }
}

/// Why a message cannot be read.
#[derive(Debug, Clone, Copy, PartialEq, Eq, Structural)]
pub enum ReadFault {
    /// It was not written yet.
    NoData,
    /// Its slot holds a later message.
    Overwritten,
    /// It is being written.
    NotWritten,
    /// It is longer than the room for it.
    TooSmall,
}

/// What a fault says.
pub open spec fn fault_text(f: ReadFault) -> Seq<char> {
    match f {
        ReadFault::NoData => "no data at this sequence number"@,
        ReadFault::Overwritten => "slot overwritten"@,
        ReadFault::NotWritten => "slot not yet written"@,
        ReadFault::TooSmall => "output buffer too small"@,
    }
}

impl ReadFault {
    /// What the fault says.
    pub fn text(&self) -> (r: &'static str)
        ensures
            r@ == fault_text(*self),
    {
        match self {
            ReadFault::NoData => "no data at this sequence number",
            ReadFault::Overwritten => "slot overwritten",
            ReadFault::NotWritten => "slot not yet written",
            ReadFault::TooSmall => "output buffer too small",
        }
    }
}

/// Where the writer of message number `write_index` puts it, and where it leaves the
/// mark of the readers.
pub struct WritePlan {
    /// The slot.
    pub slot: usize,
    /// Where the slot starts, in bytes.
    pub offset: usize,
    /// The mark of the readers: it moves on where the message goes over one that they
    /// have not read. It never moves back.
    pub read_index: u64,
}

/// The mark of the readers after message number `write_index` was written.
pub open spec fn read_mark(slot_count: u32, write_index: u64, read_index: u64) -> u64 {
    if write_index >= read_index && write_index - read_index >= slot_count {
        (write_index - (slot_count - 1)) as u64
    } else {
        read_index
    }
}

/// Where the writer of a message puts it.
pub fn plan_write(slot_count: u32, slot_size: u32, write_index: u64, read_index: u64) -> (r:
    WritePlan)
    requires
        slot_count > 0,
        slot_count * slot_size <= usize::MAX,
    ensures
        r.slot == write_index as int % slot_count as int,
        r.slot < slot_count,
        r.offset == r.slot * slot_size,
        r.offset + slot_size <= slot_count * slot_size,
        r.read_index == read_mark(slot_count, write_index, read_index),
        r.read_index >= read_index,
{
    let mark: u64 = if write_index >= read_index && write_index - read_index >= slot_count as u64 {
        write_index - (slot_count as u64 - 1)
    } else {
        read_index
    };
    let slot: usize = (write_index % slot_count as u64) as usize;
    proof {
        assert(slot * slot_size + slot_size == (slot + 1) * slot_size) by (nonlinear_arith);
        assert((slot + 1) * slot_size <= slot_count * slot_size) by (nonlinear_arith)
            requires
                slot + 1 <= slot_count,
                slot_size >= 0,
        ;
    }
    WritePlan { slot, offset: slot * slot_size as usize, read_index: mark }
}

/// Where a reader finds a message, unless it was not written yet or its slot was taken
/// by a later one.
pub open spec fn place_of(slot_count: u32, write_index: u64, seq: u64) -> Result<int, ReadFault> {
    if seq >= write_index {
        Err(ReadFault::NoData)
    } else if write_index - seq > slot_count {
        Err(ReadFault::Overwritten)
    } else {
        Ok(seq as int % slot_count as int)
    }
}

/// Where a reader finds a message: the slot and where it starts, in bytes.
pub fn plan_read(slot_count: u32, slot_size: u32, write_index: u64, seq: u64) -> (r: Result<
    (usize, usize),
    ReadFault,
>)
    requires
        slot_count > 0,
        slot_count * slot_size <= usize::MAX,
    ensures
        match r {
            Ok((slot, offset)) => place_of(slot_count, write_index, seq) == Ok::<_, ReadFault>(
                slot as int,
            ) && slot < slot_count && offset == slot * slot_size && offset + slot_size
                <= slot_count * slot_size,
            Err(f) => place_of(slot_count, write_index, seq) == Err::<int, _>(f),
        },
{
    if seq >= write_index {
        return Err(ReadFault::NoData);
    }
    if write_index - seq > slot_count as u64 {
        return Err(ReadFault::Overwritten);
    }
    let slot: usize = (seq % slot_count as u64) as usize;
    proof {
        assert(slot * slot_size + slot_size == (slot + 1) * slot_size) by (nonlinear_arith);
        assert((slot + 1) * slot_size <= slot_count * slot_size) by (nonlinear_arith)
            requires
                slot + 1 <= slot_count,
                slot_size >= 0,
        ;
    }
    Ok((slot, slot * slot_size as usize))
}

/// The length of the message in a slot, where it is the one that was asked for.
pub open spec fn length_in(found_seq: u64, found_len: u32, seq: u64) -> Result<u32, ReadFault> {
    if found_seq != seq || found_len == 0 {
        Err(ReadFault::NotWritten)
    } else {
        Ok(found_len)
    }
}

/// The length of the message in a slot, where it is the one that was asked for.
pub fn check_slot(found_seq: u64, found_len: u32, seq: u64) -> (r: Result<usize, ReadFault>)
    ensures
        match r {
            Ok(n) => length_in(found_seq, found_len, seq) == Ok::<_, ReadFault>(n as u32) && n
                == found_len && n > 0,
            Err(f) => length_in(found_seq, found_len, seq) == Err::<u32, _>(f),
        },
{
    if found_seq != seq || found_len == 0 {
        Err(ReadFault::NotWritten)
    } else {
        Ok(found_len as usize)
    }
}

/// The message of a number, where it can be read.
pub open spec fn message_at(r: RingView, seq: u64) -> Result<Seq<u8>, ReadFault> {
    match place_of(r.slot_count, r.write_index, seq) {
        Err(f) => Err(f),
        Ok(i) => match length_in(r.slots[i].seq, r.slots[i].len, seq) {
            Err(f) => Err(f),
            Ok(n) => Ok(r.slots[i].data.subrange(0, n as int)),
        },
    }
}

/// A slot with a message in it.
pub open spec fn filled(s: SlotView, seq: u64, data: Seq<u8>) -> SlotView {
    SlotView {
        seq,
        len: data.len() as u32,
        data: data + s.data.subrange(data.len() as int, s.data.len() as int),
    }
}

/// The ring with one message more.
pub open spec fn written(r: RingView, data: Seq<u8>) -> RingView {
    let i = r.slot_of(r.write_index);
    RingView {
        write_index: (r.write_index + 1) as u64,
        read_index: read_mark(r.slot_count, r.write_index, r.read_index),
        slots: r.slots.update(i, filled(r.slots[i], r.write_index, data)),
        ..r
    }
}

/// The mark of the readers after a message was read.
pub open spec fn read_on(read_index: u64, seq: u64) -> u64 {
    if seq >= read_index {
        (seq + 1) as u64
    } else {
        read_index
    }
}

/// The oldest message that may still be there.
pub open spec fn oldest_seq(r: RingView) -> u64 {
    if r.write_index < r.slot_count {
        0
    } else {
        (r.write_index - r.slot_count) as u64
    }
}

/// Whether a reader that has come to a message finds something there or behind it.
/// A message that is being written counts: the reader has to come back for it. So does
/// one that was overwritten, whoever has read what came later: the reader has fallen
/// behind and can skip ahead to what the ring still holds.
pub open spec fn available_from(r: RingView, seq: u64) -> bool {
    match message_at(r, seq) {
        Ok(_) => true,
        Err(_) => seq < r.write_index,
    }
}

/// How many slots a ring gets of those that are asked for.
pub open spec fn capped(slot_count: u32) -> u32 {
    if slot_count <= MAX_RING_SLOTS {
        slot_count
    } else {
        MAX_RING_SLOTS as u32
    }
}

/// A ring of empty slots.
pub open spec fn empty_ring(slot_count: u32, slot_size: u32) -> RingView {
    RingView {
        slot_count,
        slot_size,
        write_index: 0,
        read_index: 0,
        epoch: 0,
        slots: Seq::new(
            slot_count as nat,
            |i: int|
                SlotView {
                    seq: 0,
                    len: 0,
                    data: Seq::new(capacity_of(slot_size as nat), |j: int| 0u8),
                },
        ),
    }
}

fn zero_bytes(n: usize) -> (r: Vec<u8>)
    ensures
        r@ == Seq::new(n as nat, |j: int| 0u8),
{
    let mut r: Vec<u8> = Vec::new();
    while r.len() < n
        invariant
            r@.len() <= n,
            forall|k: int| 0 <= k < r@.len() ==> (#[trigger] r@[k]) == 0,
        decreases n - r@.len(),
    {
        r.push(0);
    }
    proof {
        assert(r@ =~= Seq::new(n as nat, |j: int| 0u8));
    }
    r
}

/// A result in words: what a fault says.
pub open spec fn in_words<T>(r: Result<T, &'static str>, f: ReadFault) -> bool {
    r matches Err(e) && e@ == fault_text(f)
}

impl RingBuffer {
    /// Whether the ring has its shape, and its bytes fit in memory.
    pub open spec fn wf(self) -> bool {
        self@.wf() && self.slot_count * self.slot_size <= usize::MAX
    }

    /// A ring of empty slots of this size.
    pub fn with_slots(slot_count: u32, slot_size: u32) -> (r: RingBuffer)
        requires
            slot_count > 0,
            slot_size > 0,
            slot_count * slot_size <= usize::MAX,
        ensures
            r.wf(),
            r@ == empty_ring(slot_count, slot_size),
    {
        let n: usize = payload_capacity_from_stride(slot_size);
        let mut slots: Vec<RingSlot> = Vec::new();
        while slots.len() < slot_count as usize
            invariant
                slots@.len() <= slot_count,
                n == capacity_of(slot_size as nat),
                forall|k: int|
                    0 <= k < slots@.len() ==> (#[trigger] slots@[k])@ == empty_ring(
                        slot_count,
                        slot_size,
                    ).slots[k],
            decreases slot_count - slots@.len(),
        {
            slots.push(RingSlot { seq: 0, len: 0, data: zero_bytes(n) });
        }
        let r = RingBuffer {
            slot_count,
            slot_size,
            write_index: 0,
            read_index: 0,
            epoch: 0,
            slots,
        };
        proof {
            assert(r@.slots =~= empty_ring(slot_count, slot_size).slots);
        }
        r
    }

    /// A ring of `slot_count` empty slots, but no more than a ring may have, for messages
    /// of up to `slot_size` bytes.
    pub fn create(slot_count: u32, slot_size: u32) -> (r: Result<RingBuffer, RingError>)
        requires
            capped(slot_count) * stride_of(slot_size as nat) <= usize::MAX,
        ensures
            match r {
                Ok(b) => slot_count > 0 && stride_of(slot_size as nat) <= u32::MAX && b.wf() && b@
                    == empty_ring(capped(slot_count), stride_of(slot_size as nat) as u32),
                Err(e) => if slot_count == 0 {
                    says(e, RingErrorKind::InvalidInput, "slot count must be non-zero"@)
                } else {
                    stride_of(slot_size as nat) > u32::MAX && says(
                        e,
                        RingErrorKind::InvalidInput,
                        "slot size overflow"@,
                    )
                },
            },
    {
        if slot_count == 0 {
            return Err(
                RingError {
                    kind: RingErrorKind::InvalidInput,
                    message: "slot count must be non-zero".to_owned(),
                },
            );
        }
        let stride: u32 = slot_stride_for_payload(slot_size)?;
        let slots: u32 = if slot_count as usize <= MAX_RING_SLOTS {
            slot_count
        } else {
            MAX_RING_SLOTS as u32
        };
        Ok(Self::with_slots(slots, stride))
    }

    /// Writes a message into the next slot, over the oldest one. Its number.
    pub fn write(&mut self, data: &[u8]) -> (r: Result<u64, &'static str>)
        requires
            old(self).wf(),
            old(self)@.write_index < u64::MAX,
        ensures
            final(self).wf(),
            if data@.len() > capacity_of(old(self)@.slot_size as nat) {
                (r matches Err(e) && e@ == "data exceeds slot size"@) && final(self)@ == old(self)@
            } else {
                r == Ok::<u64, &'static str>(old(self)@.write_index) && final(self)@ == written(
                    old(self)@,
                    data@,
                )
            },
    {
        if data.len() > payload_capacity_from_stride(self.slot_size) {
            return Err("data exceeds slot size");
        }
        let write_idx: u64 = self.write_index;
        let plan = plan_write(self.slot_count, self.slot_size, write_idx, self.read_index);
        let ghost before = self@;
        let ghost slot = plan.slot as int;
        self.write_index = write_idx + 1;
        self.read_index = plan.read_index;
        proof {
            assert(before.slots[slot] == self.slots@[slot]@);
        }
        self.fill(plan.slot, data);
        self.slots[plan.slot].len = data.len() as u32;
        self.slots[plan.slot].seq = write_idx;
        proof {
            assert(self@.slots =~= before.slots.update(
                slot,
                filled(before.slots[slot], write_idx, data@),
            ));
        }
        Ok(write_idx)
    }

    /// Puts bytes at the start of a slot.
    pub(crate) fn fill(&mut self, slot: usize, data: &[u8])
        requires
            slot < old(self).slots@.len(),
            data@.len() <= old(self).slots@[slot as int].data@.len(),
        ensures
            *final(self) == (RingBuffer { slots: final(self).slots, ..*old(self) }),
            final(self).slots@.len() == old(self).slots@.len(),
            forall|k: int|
                0 <= k < old(self).slots@.len() && k != slot ==> (#[trigger] final(self).slots@[k])
                    == old(self).slots@[k],
            final(self).slots@[slot as int].seq == old(self).slots@[slot as int].seq,
            final(self).slots@[slot as int].len == old(self).slots@[slot as int].len,
            final(self).slots@[slot as int].data@ == data@ + old(
                self,
            ).slots@[slot as int].data@.subrange(
                data@.len() as int,
                old(self).slots@[slot as int].data@.len() as int,
            ),
    {
        let ghost had = self.slots@[slot as int].data@;
        let mut i: usize = 0;
        while i < data.len()
            invariant
                i <= data@.len() <= had.len(),
                slot < self.slots@.len(),
                *self == (RingBuffer { slots: self.slots, ..*old(self) }),
                self.slots@.len() == old(self).slots@.len(),
                forall|k: int|
                    0 <= k < old(self).slots@.len() && k != slot ==> (#[trigger] self.slots@[k])
                        == old(self).slots@[k],
                self.slots@[slot as int].seq == old(self).slots@[slot as int].seq,
                self.slots@[slot as int].len == old(self).slots@[slot as int].len,
                self.slots@[slot as int].data@.len() == had.len(),
                forall|k: int|
                    0 <= k < i ==> (#[trigger] self.slots@[slot as int].data@[k]) == data@[k],
                forall|k: int|
                    i <= k < had.len() ==> (#[trigger] self.slots@[slot as int].data@[k]) == had[k],
            decreases data.len() - i,
        {
            self.slots[slot].data[i] = data[i];
            i += 1;
        }
        proof {
            assert(self.slots@[slot as int].data@ =~= data@ + had.subrange(
                data@.len() as int,
                had.len() as int,
            ));
        }
    }

    /// Finds a message: its slot and its length.
    fn locate(&self, seq: u64) -> (r: Result<(usize, usize), ReadFault>)
        requires
            self.wf(),
        ensures
            match r {
                Ok((slot, n)) => slot == self@.slot_of(seq) && slot < self.slots@.len() && n
                    == self.slots@[slot as int].len && 0 < n <= capacity_of(
                    self@.slot_size as nat,
                ) && message_at(self@, seq) == Ok::<_, ReadFault>(
                    self.slots@[slot as int].data@.subrange(0, n as int),
                ) && seq < self@.write_index,
                Err(f) => message_at(self@, seq) == Err::<Seq<u8>, _>(f) && f != ReadFault::TooSmall,
            },
    {
        let (slot, _) = plan_read(self.slot_count, self.slot_size, self.write_index, seq)?;
        proof {
            assert(self@.slots[slot as int] == self.slots@[slot as int]@);
        }
        let n: usize = check_slot(self.slots[slot].seq, self.slots[slot].len, seq)?;
        Ok((slot, n))
    }

    /// Copies a message out and marks it as read.
    pub fn read(&mut self, sequence_number: u64, out: &mut Vec<u8>) -> (r: Result<
        usize,
        &'static str,
    >)
        requires
            old(self).wf(),
        ensures
            final(self).wf(),
            copied(old(self)@, sequence_number, old(out)@, final(out)@, r),
            final(self)@ == (if r is Ok {
                RingView {
                    read_index: read_on(old(self)@.read_index, sequence_number),
                    ..old(self)@
                }
            } else {
                old(self)@
            }),
    {
        let n: usize = self.read_without_consuming(sequence_number, out)?;
        if sequence_number >= self.read_index {
            self.read_index = sequence_number + 1;
        }
        Ok(n)
    }

    /// Copies a message out without marking it as read: who shares the ring with
    /// others and keeps a mark of their own looks at messages for the others too.
    pub fn read_without_consuming(&self, sequence_number: u64, out: &mut Vec<u8>) -> (r: Result<
        usize,
        &'static str,
    >)
        requires
            self.wf(),
        ensures
            copied(self@, sequence_number, old(out)@, final(out)@, r),
            r is Ok ==> sequence_number < self@.write_index,
    {
        let (slot, n) = match self.locate(sequence_number) {
            Ok(p) => p,
            Err(f) => {
                return Err(f.text());
            },
        };
        if n > out.len() {
            return Err(ReadFault::TooSmall.text());
        }
        let ghost had = out@;
        let ghost message = self.slots@[slot as int].data@.subrange(0, n as int);
        let mut i: usize = 0;
        while i < n
            invariant
                i <= n <= out@.len() == had.len(),
                slot < self.slots@.len(),
                n <= self.slots@[slot as int].data@.len(),
                message == self.slots@[slot as int].data@.subrange(0, n as int),
                forall|k: int| 0 <= k < i ==> (#[trigger] out@[k]) == message[k],
                forall|k: int| i <= k < had.len() ==> (#[trigger] out@[k]) == had[k],
            decreases n - i,
        {
            out[i] = self.slots[slot].data[i];
            i += 1;
        }
        proof {
            assert(out@ =~= message + had.subrange(n as int, had.len() as int));
        }
        Ok(n)
    }

    /// The length of a message.
    pub fn slot_data_size(&self, sequence_number: u64) -> (r: Result<usize, &'static str>)
        requires
            self.wf(),
        ensures
            match message_at(self@, sequence_number) {
                Ok(m) => r == Ok::<usize, &'static str>(m.len() as usize) && m.len() > 0,
                Err(f) => in_words(r, f),
            },
    {
        match self.locate(sequence_number) {
            Ok((_, n)) => Ok(n),
            Err(f) => Err(f.text()),
        }
    }

    /// The number of the next message.
    pub fn current_seq(&self) -> (r: u64)
        ensures
            r == self@.write_index,
    {
        self.write_index
    }

    /// The oldest message that may still be there.
    pub fn oldest_available_seq(&self) -> (r: u64)
        ensures
            r == oldest_seq(self@),
    {
        if self.write_index < self.slot_count as u64 {
            0
        } else {
            self.write_index - self.slot_count as u64
        }
    }

    /// Notes that a new publisher begins here. The ring outlives the process that
    /// writes into it; who comes late reads on from this mark, so that they get nothing
    /// that an earlier publisher left behind.
    pub fn mark_generation(&mut self)
        ensures
            final(self)@ == (RingView { epoch: old(self)@.write_index, ..old(self)@ }),
            final(self).slots == old(self).slots,
    {
        self.epoch = self.write_index;
    }

    /// The number of the first message of the present publisher.
    pub fn generation_start(&self) -> (r: u64)
        ensures
            r == self@.epoch,
    {
        self.epoch
    }

    /// Whether a reader that has come to a message finds something there or behind
    /// it.
    pub fn data_available_from(&self, sequence_number: u64) -> (r: bool)
        requires
            self.wf(),
        ensures
            r == available_from(self@, sequence_number),
    {
        match self.locate(sequence_number) {
            Ok(_) => true,
            Err(_) => sequence_number < self.write_index,
        }
    }

    /// Whether there are messages that are not known to be read.
    pub fn data_available(&self) -> (r: bool)
        ensures
            r == (self@.write_index > self@.read_index),
    {
        self.write_index > self.read_index
    }
}

/// What copying a message out of a ring gives.
pub open spec fn copied(
    ring: RingView,
    seq: u64,
    before: Seq<u8>,
    after: Seq<u8>,
    r: Result<usize, &'static str>,
) -> bool {
    match message_at(ring, seq) {
        Err(f) => in_words(r, f) && after == before,
        Ok(m) => if m.len() > before.len() {
            in_words(r, ReadFault::TooSmall) && after == before
        } else {
            r == Ok::<usize, &'static str>(m.len() as usize) && after == m + before.subrange(
                m.len() as int,
                before.len() as int,
            )
        },
    }
}

proof fn lemma_slots_differ(n: int, a: int, b: int)
    requires
        n > 0,
        0 <= a < b,
        b - a < n,
    ensures
        a % n != b % n,
{
    vstd::arithmetic::div_mod::lemma_fundamental_div_mod(a, n);
    vstd::arithmetic::div_mod::lemma_fundamental_div_mod(b, n);
    let qa = a / n;
    let qb = b / n;
    if a % n == b % n {
        assert(b - a == n * (qb - qa)) by (nonlinear_arith)
            requires
                a == n * qa + a % n,
                b == n * qb + b % n,
                a % n == b % n,
        ;
        if qb - qa <= 0 {
            assert(n * (qb - qa) <= 0) by (nonlinear_arith)
                requires
                    n > 0,
                    qb - qa <= 0,
            ;
        } else {
            assert(n * (qb - qa) >= n) by (nonlinear_arith)
                requires
                    n > 0,
                    qb - qa >= 1,
            ;
        }
    }
}

/// A message that was written is read back, byte for byte. (An empty one is not: its
/// slot looks like one that is being written.)
pub proof fn law_written_message_is_read(r: RingView, data: Seq<u8>)
    requires
        r.wf(),
        r.write_index < u64::MAX,
        0 < data.len() <= capacity_of(r.slot_size as nat),
    ensures
        message_at(written(r, data), r.write_index) == Ok::<_, ReadFault>(data),
{
    let after = written(r, data);
    let i = r.slot_of(r.write_index);
    assert(after.slots[i].data.subrange(0, data.len() as int) =~= data);
}

/// Writing a message takes away only the message that was written as many messages
/// ago as the ring has slots: every later one stays readable.
pub proof fn law_recent_messages_stay(r: RingView, data: Seq<u8>, seq: u64)
    requires
        r.wf(),
        r.write_index < u64::MAX,
        data.len() <= capacity_of(r.slot_size as nat),
        seq < r.write_index,
        r.write_index - seq < r.slot_count,
    ensures
        message_at(written(r, data), seq) == message_at(r, seq),
{
    lemma_slots_differ(r.slot_count as int, seq as int, r.write_index as int);
    let i = r.slot_of(seq);
    assert(written(r, data).slots[i] == r.slots[i]);
}

/// A message that was written longer ago than the ring has slots is never mistaken for
/// a later one: it counts as overwritten.
pub proof fn law_old_messages_are_gone(r: RingView, seq: u64)
    requires
        r.wf(),
        seq < oldest_seq(r),
    ensures
        message_at(r, seq) == Err::<Seq<u8>, _>(ReadFault::Overwritten),
{
}

/// The mark of the readers never moves back, whether by writing or by reading.
pub proof fn law_read_mark_never_regresses(r: RingView, seq: u64)
    requires
        seq < u64::MAX,
    ensures
        read_mark(r.slot_count, r.write_index, r.read_index) >= r.read_index || r.slot_count == 0,
        read_on(r.read_index, seq) >= r.read_index,
{
}

/// Right after a new publisher has begun, who starts at the later of the oldest
/// message and the publisher's mark finds nothing: all that an earlier publisher left
/// behind stands before that mark.
pub proof fn law_generation_hides_older_messages(r: RingView, seq: u64)
    requires
        r.wf(),
        seq >= oldest_seq(r),
        seq >= r.epoch,
        r.epoch == r.write_index,
    ensures
        message_at(r, seq) == Err::<Seq<u8>, _>(ReadFault::NoData),
{
}

/// A slot is as large as the next multiple of eight that takes sixteen bytes and the
/// payload.
pub proof fn law_slot_is_aligned(payload: nat)
    ensures
        stride_of(payload) % 8 == 0,
        payload + 16 <= stride_of(payload) < payload + 24,
        capacity_of(stride_of(payload)) == stride_of(payload) - 16,
{
}

/// A message is found exactly while it is among the last that the ring has slots for,
/// in its own slot, with a length: before it was written there is no data, and after
/// that many later ones it counts as overwritten.
pub proof fn law_message_is_found_exactly(r: RingView, seq: u64)
    requires
        r.wf(),
    ensures
        message_at(r, seq) == Err::<Seq<u8>, _>(ReadFault::NoData) <==> seq >= r.write_index,
        message_at(r, seq) == Err::<Seq<u8>, _>(ReadFault::Overwritten) <==> seq + r.slot_count
            < r.write_index,
        message_at(r, seq) != Err::<Seq<u8>, _>(ReadFault::TooSmall),
        seq < r.write_index <= seq + r.slot_count ==> ({
            let s = r.slots[seq as int % r.slot_count as int];
            if s.seq == seq && s.len > 0 {
                message_at(r, seq) == Ok::<_, ReadFault>(s.data.subrange(0, s.len as int))
            } else {
                message_at(r, seq) == Err::<Seq<u8>, _>(ReadFault::NotWritten)
            }
        }),
{
}

/// A message takes the next number and one slot, and every other slot stays.
pub proof fn law_write_takes_one_slot(r: RingView, data: Seq<u8>, i: int)
    requires
        r.wf(),
        r.write_index < u64::MAX,
        data.len() <= capacity_of(r.slot_size as nat),
        0 <= i < r.slot_count,
    ensures
        written(r, data).wf(),
        written(r, data).write_index == r.write_index + 1,
        written(r, data).slot_count == r.slot_count,
        written(r, data).slot_size == r.slot_size,
        written(r, data).epoch == r.epoch,
        i != r.write_index as int % r.slot_count as int ==> written(r, data).slots[i] == r.slots[i],
        i == r.write_index as int % r.slot_count as int ==> written(r, data).slots[i].seq
            == r.write_index && written(r, data).slots[i].len == data.len(),
{
    let after = written(r, data);
    let k = r.slot_of(r.write_index);
    assert forall|j: int| 0 <= j < after.slots.len() implies (#[trigger] after.slots[j]).data.len()
        == capacity_of(after.slot_size as nat) && after.slots[j].len <= capacity_of(
        after.slot_size as nat,
    ) by {
        assert(r.slots[j].data.len() == capacity_of(r.slot_size as nat));
    }
}

/// The mark of the readers stays where nothing unread is overwritten, and else moves to
/// the oldest message that the ring still holds.
pub proof fn law_read_mark_follows_the_writer(slot_count: u32, write_index: u64, read_index: u64)
    requires
        slot_count > 0,
    ensures
        write_index < read_index + slot_count ==> read_mark(slot_count, write_index, read_index)
            == read_index,
        write_index >= read_index + slot_count ==> read_mark(slot_count, write_index, read_index)
            + slot_count == write_index + 1,
{
}

/// Reading a message moves the mark right behind it, unless the mark is there already.
pub proof fn law_reading_moves_the_mark(read_index: u64, seq: u64)
    requires
        seq < u64::MAX,
    ensures
        read_on(read_index, seq) > seq,
        read_on(read_index, seq) == read_index || read_on(read_index, seq) == seq + 1,
        seq < read_index ==> read_on(read_index, seq) == read_index,
{
}

/// The oldest message that may still be there is the first that is not overwritten.
pub proof fn law_oldest_is_the_first_left(r: RingView)
    requires
        r.wf(),
    ensures
        oldest_seq(r) <= r.write_index,
        r.write_index <= oldest_seq(r) + r.slot_count,
        oldest_seq(r) == 0 || oldest_seq(r) + r.slot_count == r.write_index,
        message_at(r, oldest_seq(r)) != Err::<Seq<u8>, _>(ReadFault::Overwritten),
{
}

/// There is something at or behind a message exactly if a message of that number was
/// begun.
pub proof fn law_available_exactly(r: RingView, seq: u64)
    ensures
        available_from(r, seq) <==> seq < r.write_index,
{
}

/// A new ring holds nothing.
pub proof fn law_new_ring_is_empty(slot_count: u32, slot_size: u32, seq: u64)
    requires
        slot_count > 0,
        slot_size > 0,
    ensures
        empty_ring(slot_count, slot_size).wf(),
        message_at(empty_ring(slot_count, slot_size), seq) == Err::<Seq<u8>, _>(ReadFault::NoData),
        !available_from(empty_ring(slot_count, slot_size), seq),
        capped(slot_count) <= 4096,
        slot_count <= 4096 ==> capped(slot_count) == slot_count,
        slot_count > 4096 ==> capped(slot_count) == 4096,
{
}

/// A message that is copied out stands at the front of the buffer, and the rest of the
/// buffer stays; what cannot be copied leaves the buffer as it is.
pub proof fn law_copy_leaves_the_rest(
    ring: RingView,
    seq: u64,
    before: Seq<u8>,
    after: Seq<u8>,
    r: Result<usize, &'static str>,
    k: int,
)
    requires
        copied(ring, seq, before, after, r),
        before.len() <= usize::MAX,
        0 <= k < before.len(),
    ensures
        after.len() == before.len(),
        r is Err ==> after == before,
        r is Ok ==> message_at(ring, seq) is Ok && r->Ok_0 == message_at(ring, seq)->Ok_0.len(),
        r is Ok && k < r->Ok_0 ==> after[k] == message_at(ring, seq)->Ok_0[k],
        r is Ok && k >= r->Ok_0 ==> after[k] == before[k],
        r is Err <==> message_at(ring, seq) is Err || message_at(ring, seq)->Ok_0.len()
            > before.len(),
{
}

/// A slot gives the length of the message that was asked for exactly if it holds that very
/// message and the message is not empty; else it counts as being written.
pub proof fn law_slot_gives_its_own_message(found_seq: u64, found_len: u32, seq: u64)
    ensures
        length_in(found_seq, found_len, seq) is Ok <==> found_seq == seq && found_len > 0,
        length_in(found_seq, found_len, seq) matches Ok(n) ==> n == found_len,
        length_in(found_seq, found_len, seq) matches Err(f) ==> f is NotWritten,
{
}

} // verus!
