//! How a ring gets its shared memory: how large it is made, and how processes that
//! start at the same time come to share one.
use crate::local::ring::{RingError, RingErrorKind, MAX_RING_SLOTS};
#[allow(unused_imports)]
use crate::local::ring;
#[allow(unused_imports)]
use crate::text;
use crate::text::{parse_unsigned, push_decimal};
use vstd::prelude::*;

verus! {

/// How often a process tries while another one sets a segment up.
pub const SHM_CREATE_RACE_RETRIES: u32 = 100;

/// How long it waits between two tries, in milliseconds.
pub const SHM_CREATE_RACE_SLEEP_MS: u64 = 5;

/// One mebibyte.
pub const MEBIBYTE: usize = 1_048_576;

/// How many bytes a ring may take, as the variable for it says in mebibytes.
pub open spec fn ring_bytes(value: Option<Seq<char>>) -> int {
    match value {
        Some(v) => match text::unsigned_value(v, usize::MAX as nat) {
            Some(mb) => mb * MEBIBYTE,
            None => 256 * MEBIBYTE,
        },
        None => 256 * MEBIBYTE,
    }
}

/// How many bytes a ring may take: 256 MiB, or as many as the variable for it says.
pub fn max_ring_data_bytes(value: Option<&str>) -> (r: usize)
    requires
        ring_bytes(text::opt_str(value)) <= usize::MAX,
    ensures
        r == ring_bytes(text::opt_str(value)),
{
    match value {
        Some(v) => match parse_unsigned(v, usize::MAX as u64) {
            Some(mb) => mb as usize * MEBIBYTE,
            None => 256 * MEBIBYTE,
        },
        None => 256 * MEBIBYTE,
    }
}

/// The bytes that are free, where their number is known.
pub fn available_shm_bytes(fragment_size: usize, blocks_available: usize) -> (r: Option<usize>)
    ensures
        match r {
            Some(n) => n == fragment_size * blocks_available,
            None => fragment_size * blocks_available > usize::MAX,
        },
{
    fragment_size.checked_mul(blocks_available)
}

/// A number between bounds.
pub open spec fn between(n: int, low: int, high: int) -> int {
    if n < low {
        low
    } else if n > high {
        high
    } else {
        n
    }
}

/// How many slots a ring gets: as many as asked for, but no more than its bytes allow
/// or than there is room for, and at least one.
pub open spec fn slots_for(asked: int, stride: int, max_bytes: int, free: Option<int>) -> int {
    let bounded = {
        let most = between(max_bytes / stride, 1, MAX_RING_SLOTS as int);
        if asked < most {
            asked
        } else {
            most
        }
    };
    let fitting = match free {
        Some(n) => if 0 < n / stride < bounded {
            n / stride
        } else {
            bounded
        },
        None => bounded,
    };
    if fitting < 1 {
        1
    } else {
        fitting
    }
}

/// How many slots a ring gets.
pub fn ring_slots(slot_count: u32, slot_stride: u32, max_bytes: usize, free: Option<usize>) -> (r:
    u32)
    requires
        slot_stride > 0,
    ensures
        r == slots_for(
            slot_count as int,
            slot_stride as int,
            max_bytes as int,
            match free {
                Some(n) => Some(n as int),
                None => None,
            },
        ),
        1 <= r <= MAX_RING_SLOTS,
{
    let stride: usize = slot_stride as usize;
    let by_bytes: usize = max_bytes / stride;
    let most: usize = if by_bytes < 1 {
        1
    } else if by_bytes > MAX_RING_SLOTS {
        MAX_RING_SLOTS
    } else {
        by_bytes
    };
    let mut sc: usize = slot_count as usize;
    if sc > most {
        sc = most;
    }
    if let Some(n) = free {
        let by_room: usize = n / stride;
        if by_room > 0 && by_room < sc {
            sc = by_room;
        }
    }
    if sc < 1 {
        sc = 1;
    }
    sc as u32
}

/// What comes of asking the system for the bytes of a ring.
pub enum AllocOutcome {
    Done,
    /// There is no room.
    NoSpace(String),
    Failed(String),
}

/// What is done next.
pub enum AllocStep {
    /// The ring has its bytes.
    Use,
    /// Ask again, for fewer slots.
    Retry(u32),
    Fail(RingError),
}

/// What a ring says that gets no bytes.
pub open spec fn no_room(size: nat, reason: Seq<char>) -> Seq<char> {
    "insufficient shared memory for "@ + text::decimal(size) + " byte ring buffer: "@ + reason
}

/// The bytes of a ring.
pub open spec fn ring_size(header: nat, slots: nat, stride: nat) -> nat {
    header + slots * stride
}

fn room_error(size: usize, reason: &str) -> (r: RingError)
    ensures
        ring::says(r, RingErrorKind::StorageFull, no_room(size as nat, reason@)),
{
    let mut s = "insufficient shared memory for ".to_owned();
    push_decimal(&mut s, size as u64);
    s.append(" byte ring buffer: ");
    s.append(reason);
    RingError { kind: RingErrorKind::StorageFull, message: s }
}

/// What is done after the bytes of a ring of `slots` slots were asked for: where there
/// is no room for them, half as many are asked for, down to one.
pub fn allocation_step(outcome: AllocOutcome, slots: u32, size: usize) -> (r: AllocStep)
    requires
        slots > 0,
    ensures
        match outcome {
            AllocOutcome::Done => r is Use,
            AllocOutcome::NoSpace(reason) => if slots > 1 {
                r matches AllocStep::Retry(n) && n == slots / 2 && 0 < n < slots
            } else {
                r matches AllocStep::Fail(e) && ring::says(
                    e,
                    RingErrorKind::StorageFull,
                    no_room(size as nat, reason@),
                )
            },
            AllocOutcome::Failed(reason) => r matches AllocStep::Fail(e) && ring::says(
                e,
                RingErrorKind::StorageFull,
                no_room(size as nat, reason@),
            ),
        },
{
    match outcome {
        AllocOutcome::Done => AllocStep::Use,
        AllocOutcome::NoSpace(reason) => if slots > 1 {
            AllocStep::Retry(slots / 2)
        } else {
            AllocStep::Fail(room_error(size, reason.as_str()))
        },
        AllocOutcome::Failed(reason) => AllocStep::Fail(room_error(size, reason.as_str())),
    }
}

/// The bytes of a ring.
pub fn segment_size(header_size: usize, slots: u32, slot_stride: u32) -> (r: usize)
    requires
        ring_size(header_size as nat, slots as nat, slot_stride as nat) <= usize::MAX,
    ensures
        r == ring_size(header_size as nat, slots as nat, slot_stride as nat),
{
    proof {
        assert(0 <= slots * slot_stride) by (nonlinear_arith);
    }
    header_size + slots as usize * slot_stride as usize
}

/// What happened while an existing segment was opened.
pub enum OpenEvent {
    /// The segment is open; its size.
    Opened(i64),
    /// Its header was given pages, or the reason why not.
    HeaderReserved(Result<(), String>),
    /// Its header was read: the number and the size of its slots.
    HeaderRead(u32, u32),
    /// All of it was given pages, or the reason why not.
    Reserved(usize, Result<(), String>),
}

/// What is done next to open an existing segment.
pub enum OpenStep {
    /// Give its header pages.
    ReserveHeader,
    /// Read its header.
    ReadHeader,
    /// Give this many bytes of it pages.
    Reserve(usize),
    /// Map this many bytes of it.
    Attach(usize),
    Fail(RingError),
}

/// The complaint that a segment is too small.
pub open spec fn too_small(size: nat, header: nat) -> Seq<char> {
    "shared memory segment is too small for ring header ("@ + text::decimal(size) + " < "@
        + text::decimal(header) + ")"@
}

/// The complaint that a part of a segment cannot be given pages.
pub open spec fn unallocated(part: Seq<char>, size: nat, reason: Seq<char>) -> Seq<char> {
    "stale shared memory "@ + part + " cannot be allocated ("@ + text::decimal(size) + " bytes): "@
        + reason
}

/// What a step to open a segment is.
pub open spec fn open_step_is(event: OpenEvent, header: nat, step: OpenStep) -> bool {
    match event {
        OpenEvent::Opened(len) => {
            let size = if len < 0 || len > usize::MAX {
                0
            } else {
                len as nat
            };
            if size < header {
                step matches OpenStep::Fail(e) && ring::says(
                    e,
                    RingErrorKind::UnexpectedEof,
                    too_small(size, header),
                )
            } else {
                step is ReserveHeader
            }
        },
        OpenEvent::HeaderReserved(Ok(())) => step is ReadHeader,
        OpenEvent::HeaderReserved(Err(reason)) => step matches OpenStep::Fail(e) && ring::says(
            e,
            RingErrorKind::StorageFull,
            unallocated("header"@, header, reason@),
        ),
        OpenEvent::HeaderRead(slots, stride) => if slots == 0 || stride == 0 {
            step matches OpenStep::Fail(e) && ring::says(
                e,
                RingErrorKind::InvalidData,
                "stale segment with zero capacity or slot_size"@,
            )
        } else if ring_size(header, slots as nat, stride as nat) > usize::MAX {
            step matches OpenStep::Fail(e) && ring::says(
                e,
                RingErrorKind::InvalidData,
                "ring buffer size overflow"@,
            )
        } else {
            step matches OpenStep::Reserve(n) && n == ring_size(
                header,
                slots as nat,
                stride as nat,
            )
        },
        OpenEvent::Reserved(size, Ok(())) => step matches OpenStep::Attach(n) && n == size,
        OpenEvent::Reserved(size, Err(reason)) => step matches OpenStep::Fail(e) && ring::says(
            e,
            RingErrorKind::StorageFull,
            unallocated("segment"@, size as nat, reason@),
        ),
    }
}

fn unallocated_error(part: &str, size: usize, reason: &str) -> (r: RingError)
    ensures
        ring::says(r, RingErrorKind::StorageFull, unallocated(part@, size as nat, reason@)),
{
    let mut s = "stale shared memory ".to_owned();
    s.append(part);
    s.append(" cannot be allocated (");
    push_decimal(&mut s, size as u64);
    s.append(" bytes): ");
    s.append(reason);
    RingError { kind: RingErrorKind::StorageFull, message: s }
}

fn data_error(message: &str) -> (r: RingError)
    ensures
        ring::says(r, RingErrorKind::InvalidData, message@),
{
    RingError { kind: RingErrorKind::InvalidData, message: message.to_owned() }
}

/// What is done next to open an existing segment. A segment whose process was killed
/// may have a size but no pages: it is given pages before it is touched, so that a
/// lack of room is an error and no fault.
pub fn open_step(event: OpenEvent, header_size: usize) -> (r: OpenStep)
    ensures
        open_step_is(event, header_size as nat, r),
{
    match event {
        OpenEvent::Opened(len) => {
            let size: usize = if len < 0 || len as u64 > usize::MAX as u64 {
                0
            } else {
                len as usize
            };
            if size < header_size {
                let mut s = "shared memory segment is too small for ring header (".to_owned();
                push_decimal(&mut s, size as u64);
                s.append(" < ");
                push_decimal(&mut s, header_size as u64);
                s.append(")");
                OpenStep::Fail(RingError { kind: RingErrorKind::UnexpectedEof, message: s })
            } else {
                OpenStep::ReserveHeader
            }
        },
        OpenEvent::HeaderReserved(outcome) => match outcome {
            Ok(()) => OpenStep::ReadHeader,
            Err(reason) => OpenStep::Fail(
                unallocated_error("header", header_size, reason.as_str()),
            ),
        },
        OpenEvent::HeaderRead(slots, stride) => {
            if slots == 0 || stride == 0 {
                return OpenStep::Fail(
                    data_error("stale segment with zero capacity or slot_size"),
                );
            }
            match (slots as usize).checked_mul(stride as usize) {
                None => OpenStep::Fail(data_error("ring buffer size overflow")),
                Some(data) => match header_size.checked_add(data) {
                    None => OpenStep::Fail(data_error("ring buffer size overflow")),
                    Some(total) => OpenStep::Reserve(total),
                },
            }
        },
        OpenEvent::Reserved(size, outcome) => match outcome {
            Ok(()) => OpenStep::Attach(size),
            Err(reason) => OpenStep::Fail(unallocated_error("segment", size, reason.as_str())),
        },
    }
}

/// Whether a ring that is there serves who asks for slots of a given size. A ring with
/// fewer slots does: to replace it would cut off who writes into it.
pub fn is_compatible_with_request(slot_count: u32, slot_size: u32, requested_slot_stride: u32) -> (r:
    bool)
    ensures
        r == (slot_count > 0 && slot_size >= requested_slot_stride),
{
    slot_count > 0 && slot_size >= requested_slot_stride
}

/// What came of a try to open a ring that is there.
pub enum TryOpen {
    /// It is open: the number and the size of its slots.
    Opened(u32, u32),
    Failed(RingErrorKind),
}

/// What is done after a try to open a ring that is there.
#[derive(Debug, Clone, Copy, PartialEq, Eq, Structural)]
pub enum WaitStep {
    /// Use it.
    Use,
    /// Wait, and try again.
    Wait,
    /// It is of no use: make another.
    Replace,
    /// Report the error.
    Fail,
}

/// What is done after a try to open a ring that is there, with `tries` tries left
/// before it: one that is being set up is waited for.
pub fn wait_open_step(outcome: TryOpen, requested_slot_stride: u32, tries: u32) -> (r: WaitStep)
    requires
        tries > 0,
    ensures
        r == (match outcome {
            TryOpen::Opened(slots, size) => if slots > 0 && size >= requested_slot_stride {
                WaitStep::Use
            } else {
                WaitStep::Replace
            },
            TryOpen::Failed(RingErrorKind::InvalidData) | TryOpen::Failed(
                RingErrorKind::UnexpectedEof,
            ) => if tries > 1 {
                WaitStep::Wait
            } else {
                WaitStep::Replace
            },
            TryOpen::Failed(RingErrorKind::NotFound) => WaitStep::Replace,
            TryOpen::Failed(_) => WaitStep::Fail,
        }),
{
    match outcome {
        TryOpen::Opened(slots, size) => if is_compatible_with_request(
            slots,
            size,
            requested_slot_stride,
        ) {
            WaitStep::Use
        } else {
            WaitStep::Replace
        },
        TryOpen::Failed(kind) => match kind {
            RingErrorKind::InvalidData | RingErrorKind::UnexpectedEof => if tries > 1 {
                WaitStep::Wait
            } else {
                WaitStep::Replace
            },
            RingErrorKind::NotFound => WaitStep::Replace,
            _ => WaitStep::Fail,
        },
    }
}

/// What happened in the race to open or create a segment.
pub enum RaceEvent {
    /// It was there, and was opened: the number and the size of its slots.
    Opened(u32, u32),
    /// It was there, but could not be used.
    Unusable(RingErrorKind),
    /// It was not there.
    Missing,
    /// Another process is at it.
    Busy,
    /// It was created and is to be set up.
    Created,
    /// The system refused.
    Refused,
}

/// What is done next in the race to open or create a segment.
#[derive(Debug, Clone, Copy, PartialEq, Eq, Structural)]
pub enum RaceStep {
    /// Use the segment that was opened.
    Use,
    /// Remove the segment and try again.
    RemoveAndRetry,
    /// Wait, and try again.
    WaitAndRetry,
    /// Create the segment.
    Create,
    /// Set the segment up.
    SetUp,
    /// Remove the segment and report the error.
    RemoveAndFail,
    /// Report the error.
    Fail,
}

/// What is done next in the race to open or create a segment.
pub fn race_step(event: RaceEvent, slot_stride: u32) -> (r: RaceStep)
    ensures
        r == (match event {
            RaceEvent::Opened(slots, size) => if slots > 0 && size >= slot_stride {
                RaceStep::Use
            } else {
                RaceStep::RemoveAndRetry
            },
            RaceEvent::Unusable(RingErrorKind::InvalidData) | RaceEvent::Unusable(
                RingErrorKind::UnexpectedEof,
            ) => RaceStep::WaitAndRetry,
            RaceEvent::Unusable(_) => RaceStep::RemoveAndFail,
            RaceEvent::Missing => RaceStep::Create,
            RaceEvent::Busy => RaceStep::WaitAndRetry,
            RaceEvent::Created => RaceStep::SetUp,
            RaceEvent::Refused => RaceStep::Fail,
        }),
{
    match event {
        RaceEvent::Opened(slots, size) => if is_compatible_with_request(slots, size, slot_stride) {
            RaceStep::Use
        } else {
            RaceStep::RemoveAndRetry
        },
        RaceEvent::Unusable(kind) => match kind {
            RingErrorKind::InvalidData | RingErrorKind::UnexpectedEof => RaceStep::WaitAndRetry,
            _ => RaceStep::RemoveAndFail,
        },
        RaceEvent::Missing => RaceStep::Create,
        RaceEvent::Busy => RaceStep::WaitAndRetry,
        RaceEvent::Created => RaceStep::SetUp,
        RaceEvent::Refused => RaceStep::Fail,
    }
}

/// The name of the segment of a ring.
pub fn segment_name(name: &str) -> (r: String)
    ensures
        r@ == "/axon_"@ + name@,
{
    let mut s = "/axon_".to_owned();
    s.append(name);
    s
}

/// The error of who has tried too often.
pub fn stayed_busy(name: &str) -> (r: RingError)
    ensures
        ring::says(
            r,
            RingErrorKind::AlreadyExists,
            "shared memory segment "@ + ("/axon_"@ + name@)
                + " stayed busy during create/open race"@,
        ),
{
    let mut s = "shared memory segment ".to_owned();
    s.append(segment_name(name).as_str());
    s.append(" stayed busy during create/open race");
    RingError { kind: RingErrorKind::AlreadyExists, message: s }
}

/// Tests a name: it must not hold a zero character.
pub fn check_name(s: &str) -> (r: Result<(), RingError>)
    ensures
        match r {
            Ok(()) => !s@.contains('\0'),
            Err(e) => s@.contains('\0') && ring::says(
                e,
                RingErrorKind::InvalidInput,
                "null byte in string"@,
            ),
        },
{
    let chars = crate::text::chars_of(s);
    let mut i: usize = 0;
    while i < chars.len()
        invariant
            i <= chars@.len(),
            chars@ == s@,
            forall|k: int| 0 <= k < i ==> (#[trigger] chars@[k]) != '\0',
        decreases chars.len() - i,
    {
        if chars[i] == '\0' {
            proof {
                assert(s@[i as int] == '\0');
            }
            return Err(
                RingError {
                    kind: RingErrorKind::InvalidInput,
                    message: "null byte in string".to_owned(),
                },
            );
        }
        i += 1;
    }
    Ok(())
}

/// The number of slots that `n` failed tries leave.
pub open spec fn halved(slots: nat, n: nat) -> nat
    decreases n,
{
    if n == 0 || slots <= 1 {
        slots
    } else {
        halved(slots / 2, (n - 1) as nat)
    }
}

/// Asking for fewer and fewer slots comes down to one: a ring fails for want of room
/// only where there is no room for a single slot.
pub proof fn law_retries_reach_one_slot(slots: nat)
    requires
        slots > 0,
    ensures
        halved(slots, slots) == 1,
    decreases slots,
{
    lemma_halved_enough(slots, slots);
}

proof fn lemma_halved_enough(slots: nat, n: nat)
    requires
        0 < slots,
        slots <= n + 1,
    ensures
        halved(slots, n) == 1,
    decreases n,
{
    if slots > 1 {
        lemma_halved_enough(slots / 2, (n - 1) as nat);
    }
}

/// A ring never gets more slots than asked for, except that it gets one, and its data
/// never takes more bytes than allowed, unless one slot alone does.
pub proof fn law_ring_stays_within_bounds(asked: int, stride: int, max_bytes: int, free: Option<int>)
    requires
        asked >= 1,
        stride > 0,
        max_bytes >= 0,
    ensures
        ({
            let n = slots_for(asked, stride, max_bytes, free);
            1 <= n <= asked && (n == 1 || n * stride <= max_bytes)
        }),
{
    let n = slots_for(asked, stride, max_bytes, free);
    if n != 1 {
        assert(n <= max_bytes / stride);
        assert(n * stride <= max_bytes) by (nonlinear_arith)
            requires
                stride > 0,
                max_bytes >= 0,
                n <= max_bytes / stride,
        {
            vstd::arithmetic::div_mod::lemma_fundamental_div_mod(max_bytes, stride);
        }
    }
}

/// A ring gets as many slots as were asked for, unless the allowed bytes, the free ones
/// or the largest number of slots stand against it; and it gets one in any case.
pub proof fn law_ring_gets_what_fits(asked: int, stride: int, max_bytes: int, free: Option<int>)
    requires
        asked >= 1,
        stride > 0,
        max_bytes >= 0,
    ensures
        ({
            let n = slots_for(asked, stride, max_bytes, free);
            &&& n <= 4096
            &&& (free matches Some(f) && f >= stride ==> n * stride <= free->0)
            &&& (asked <= 4096 && asked * stride <= max_bytes && (free matches Some(f) ==> asked
                * stride <= f) ==> n == asked)
            &&& n < asked ==> n == 4096 || (n + 1) * stride > max_bytes || (free matches Some(f)
                && (n + 1) * stride > f)
        }),
{
    let n = slots_for(asked, stride, max_bytes, free);
    let q = max_bytes / stride;
    vstd::arithmetic::div_mod::lemma_fundamental_div_mod(max_bytes, stride);
    assert(q * stride <= max_bytes < (q + 1) * stride) by (nonlinear_arith)
        requires
            stride > 0,
            max_bytes == stride * q + max_bytes % stride,
            0 <= max_bytes % stride < stride,
    ;
    if asked * stride <= max_bytes {
        assert(asked <= q) by (nonlinear_arith)
            requires
                stride > 0,
                asked * stride <= max_bytes,
                max_bytes < (q + 1) * stride,
        ;
    }
    if let Some(f) = free {
        let p = f / stride;
        if f >= 0 {
            vstd::arithmetic::div_mod::lemma_fundamental_div_mod(f, stride);
            assert(p * stride <= f < (p + 1) * stride) by (nonlinear_arith)
                requires
                    stride > 0,
                    f == stride * p + f % stride,
                    0 <= f % stride < stride,
            ;
            if f >= stride {
                assert(p >= 1) by (nonlinear_arith)
                    requires
                        stride > 0,
                        f >= stride,
                        f < (p + 1) * stride,
                ;
                assert(n * stride <= f) by (nonlinear_arith)
                    requires
                        stride > 0,
                        1 <= n <= p,
                        p * stride <= f,
                ;
            }
            if asked * stride <= f {
                assert(asked <= p) by (nonlinear_arith)
                    requires
                        stride > 0,
                        asked * stride <= f,
                        f < (p + 1) * stride,
                ;
            }
        }
    }
    if n < asked && n != 4096 {
        if n == q || q < 1 {
            assert((n + 1) * stride > max_bytes) by (nonlinear_arith)
                requires
                    stride > 0,
                    n >= q,
                    max_bytes < (q + 1) * stride,
            ;
        }
    }
}

/// The variable for the bytes of a ring is read in mebibytes, and without it, or where
/// it is no number, a ring may take 256 of them.
pub proof fn law_ring_bytes_are_mebibytes(n: nat, v: Seq<char>, i: int)
    requires
        n <= usize::MAX,
        0 <= i < v.len(),
        !('0' <= v[i] <= '9'),
        i > 0 || v[i] != '+',
    ensures
        ring_bytes(Some(text::decimal(n))) == n * 1_048_576,
        ring_bytes(None) == 268_435_456,
        ring_bytes(Some(v)) == 268_435_456,
{
    text::law_decimal_round_trip(n, usize::MAX as nat);
    if v[0] == '+' {
        let rest = v.subrange(1, v.len() as int);
        assert(rest[i - 1] == v[i]);
    }
}

/// A segment that is there is never touched before it was given pages: its header is
/// read only once it has some, and it is attached only once all of it has, in the size
/// that its header and its slots add up to.
pub proof fn law_no_touch_before_pages(event: OpenEvent, header: nat, step: OpenStep)
    requires
        open_step_is(event, header, step),
    ensures
        step is ReserveHeader <==> (event matches OpenEvent::Opened(len) && len >= 0 && len
            <= usize::MAX && len >= header) || (event matches OpenEvent::Opened(len) && header == 0),
        step is ReadHeader <==> (event matches OpenEvent::HeaderReserved(o) && o is Ok),
        step is Attach <==> (event matches OpenEvent::Reserved(size, o) && o is Ok),
        step matches OpenStep::Attach(n) ==> (event matches OpenEvent::Reserved(size, o) && n
            == size),
        step matches OpenStep::Reserve(n) ==> (event matches OpenEvent::HeaderRead(slots, stride)
            && slots > 0 && stride > 0 && n == header + slots * stride),
        event matches OpenEvent::HeaderRead(slots, stride) && slots > 0 && stride > 0 && header
            + slots * stride <= usize::MAX ==> step is Reserve,
{
}

} // verus!
