//! What C callers are told when they take messages, requests and responses.
use vstd::prelude::*;

#[allow(unused_imports)]
use crate::bridge::settings;
use crate::bridge::settings::text_ends_with;
#[allow(unused_imports)]
use crate::text;
use crate::text::{push_decimal, text_equal};

verus! {

/// Whether a failed take only means that there was nothing to take. Another consumer
/// may have advanced a shared ring between the readiness check and the read.
pub fn is_expected_empty_receive(error: &str) -> (r: bool)
    ensures
        r == settings::ends_with(error@, "no data at this sequence number"@),
{
    text_ends_with(error, "no data at this sequence number")
}

/// How a take starts.
#[derive(Clone, Copy, Debug, PartialEq, Eq, Structural)]
pub enum TakePlan {
    /// The caller has no room: only look at the size.
    Peek,
    /// The caller has room but no buffer.
    Refuse,
    /// Receive into the caller's buffer.
    Receive,
}

/// How a take starts.
pub open spec fn plan_of(capacity: u32, has_buffer: bool) -> TakePlan {
    if capacity == 0 {
        TakePlan::Peek
    } else if !has_buffer {
        TakePlan::Refuse
    } else {
        TakePlan::Receive
    }
}

/// Decides how a take starts.
pub fn take_plan(capacity: u32, has_buffer: bool) -> (r: TakePlan)
    ensures
        r == plan_of(capacity, has_buffer),
{
    if capacity == 0 {
        TakePlan::Peek
    } else if !has_buffer {
        TakePlan::Refuse
    } else {
        TakePlan::Receive
    }
}

/// What a caller is told: a return code, and the size and the sequence number that
/// are written back, where they are.
#[derive(Clone, Copy, Debug, PartialEq, Eq, Structural)]
pub struct TakeReply {
    pub code: i32,
    pub len: Option<u32>,
    pub next_seq: Option<u64>,
}

/// A size as it is written back.
pub open spec fn size_out(size: Option<usize>) -> Option<u32> {
    match size {
        Some(n) => Some(n as u32),
        None => None,
    }
}

fn written_size(size: Option<usize>) -> (r: Option<u32>)
    ensures
        r == size_out(size),
{
    match size {
        Some(n) => Some(#[verifier::truncate] (n as u32)),
        None => None,
    }
}

/// What is told of a take of the message at a sequence number. `received` is the size
/// of what was received, and `size` what a look at the message gave.
pub open spec fn reply_at(
    plan: TakePlan,
    received: Option<usize>,
    capacity: u32,
    size: Option<usize>,
) -> TakeReply {
    match plan {
        TakePlan::Peek => TakeReply { code: -1i32, len: size_out(size), next_seq: None },
        TakePlan::Refuse => TakeReply { code: -1i32, len: None, next_seq: None },
        TakePlan::Receive => match received {
            Some(n) => TakeReply {
                code: if n > capacity {
                    -1i32
                } else {
                    0
                },
                len: size_out(received),
                next_seq: None,
            },
            None => TakeReply { code: -1i32, len: size_out(size), next_seq: None },
        },
    }
}

/// The reply to a take of the message at a sequence number. A caller without room, and
/// one whose take failed or had too little room, is told the size, so that it can try
/// again.
pub fn axon_session_take(
    capacity: u32,
    has_buffer: bool,
    received: Option<usize>,
    size: Option<usize>,
) -> (r: TakeReply)
    ensures
        r == reply_at(plan_of(capacity, has_buffer), received, capacity, size),
{
    match take_plan(capacity, has_buffer) {
        TakePlan::Peek => TakeReply { code: -1, len: written_size(size), next_seq: None },
        TakePlan::Refuse => TakeReply { code: -1, len: None, next_seq: None },
        TakePlan::Receive => match received {
            Some(n) => TakeReply {
                code: if n > capacity as usize {
                    -1
                } else {
                    0
                },
                len: written_size(received),
                next_seq: None,
            },
            None => TakeReply { code: -1, len: written_size(size), next_seq: None },
        },
    }
}

/// What is told of a take of the next message. `received` holds the size and the
/// sequence number of what was received, and `found` what a look at the next message
/// gave.
pub open spec fn next_reply(
    plan: TakePlan,
    received: Option<(usize, u64)>,
    capacity: u32,
    found: Option<(usize, u64)>,
) -> TakeReply {
    match (plan, received, found) {
        (TakePlan::Refuse, _, _) => TakeReply { code: -1i32, len: None, next_seq: None },
        (TakePlan::Peek, _, Some(f)) => TakeReply {
            code: -1i32,
            len: size_out(Some(f.0)),
            next_seq: Some(f.1),
        },
        (TakePlan::Peek, _, None) => TakeReply { code: -1i32, len: None, next_seq: None },
        (TakePlan::Receive, Some(m), _) => if m.0 > capacity {
            TakeReply { code: -2i32, len: size_out(Some(m.0)), next_seq: Some(m.1) }
        } else {
            TakeReply { code: 0, len: size_out(Some(m.0)), next_seq: Some((m.1 + 1) as u64) }
        },
        (TakePlan::Receive, None, Some(f)) => TakeReply {
            code: -2i32,
            len: size_out(Some(f.0)),
            next_seq: Some(f.1),
        },
        (TakePlan::Receive, None, None) => TakeReply { code: -3i32, len: None, next_seq: None },
    }
}

/// The reply to a take of the next message. A message that was taken advances the
/// sequence.
pub fn axon_session_take_next(
    capacity: u32,
    has_buffer: bool,
    received: Option<(usize, u64)>,
    found: Option<(usize, u64)>,
) -> (r: TakeReply)
    requires
        received matches Some(m) ==> m.1 < u64::MAX,
    ensures
        r == next_reply(plan_of(capacity, has_buffer), received, capacity, found),
{
    match take_plan(capacity, has_buffer) {
        TakePlan::Refuse => TakeReply { code: -1, len: None, next_seq: None },
        TakePlan::Peek => match found {
            Some((size, seq)) => TakeReply {
                code: -1,
                len: written_size(Some(size)),
                next_seq: Some(seq),
            },
            None => TakeReply { code: -1, len: None, next_seq: None },
        },
        TakePlan::Receive => match received {
            Some((size, seq)) => if size > capacity as usize {
                TakeReply { code: -2, len: written_size(Some(size)), next_seq: Some(seq) }
            } else {
                TakeReply { code: 0, len: written_size(Some(size)), next_seq: Some(seq + 1) }
            },
            None => match found {
                Some((size, seq)) => TakeReply {
                    code: -2,
                    len: written_size(Some(size)),
                    next_seq: Some(seq),
                },
                None => TakeReply { code: -3, len: None, next_seq: None },
            },
        },
    }
}

/// What is reported of a take of the next message that failed with `error` and found
/// nothing: nothing, where that was to be expected.
pub fn take_next_report(topic: &str, seq: u64, error: &str) -> (r: Option<String>)
    ensures
        r is None <==> settings::ends_with(error@, "no data at this sequence number"@),
        r matches Some(m) ==> m@ == "take_next error: topic="@ + topic@ + " seq="@ + text::decimal(
            seq as nat,
        ) + " err="@ + error@,
{
    if is_expected_empty_receive(error) {
        return None;
    }
    let mut m = "take_next error: topic=".to_owned();
    m.append(topic);
    m.append(" seq=");
    push_decimal(&mut m, seq);
    m.append(" err=");
    m.append(error);
    Some(m)
}

/// What the caller of a take with information is told beside the message: when it
/// came, and its sequence number.
#[derive(Clone, Copy, Debug, PartialEq, Eq, Structural)]
pub struct MessageInfo {
    pub source_timestamp: i64,
    pub received_timestamp: i64,
    pub sequence_number: i64,
}

/// The information beside a message at a sequence number. Both times are the present.
pub fn message_info(now_ns: i64, seq: u64) -> (r: MessageInfo)
    ensures
        r == (MessageInfo {
            source_timestamp: now_ns,
            received_timestamp: now_ns,
            sequence_number: seq as i64,
        }),
{
    MessageInfo {
        source_timestamp: now_ns,
        received_timestamp: now_ns,
        sequence_number: #[verifier::truncate] (seq as i64),
    }
}

/// The information beside a next message, of which the sequence has already advanced
/// to `next_seq`.
pub fn next_message_info(now_ns: i64, next_seq: u64) -> (r: MessageInfo)
    ensures
        r == (MessageInfo {
            source_timestamp: now_ns,
            received_timestamp: now_ns,
            sequence_number: (if next_seq == 0 {
                0
            } else {
                next_seq - 1
            }) as u64 as i64,
        }),
{
    let seq: u64 = if next_seq == 0 {
        0
    } else {
        next_seq - 1
    };
    message_info(now_ns, seq)
}

/// What the first look at a request or a response comes to.
#[derive(Clone, Copy, Debug, PartialEq, Eq, Structural)]
pub enum SizeStep {
    /// Tell the caller this.
    Reply(TakeReply),
    /// Take it.
    Take,
}

/// The code of a failed look at a request: its slot may still be being written.
pub open spec fn request_fault(error: Seq<char>) -> i32 {
    if error == "slot not yet written"@ {
        -3i32
    } else {
        -1i32
    }
}

fn request_fault_code(error: &str) -> (r: i32)
    ensures
        r == request_fault(error@),
{
    if text_equal(error, "slot not yet written") {
        -3i32
    } else {
        -1i32
    }
}

/// What a look at a request of this size comes to.
pub open spec fn request_step(size: Result<usize, Seq<char>>, room: u32) -> SizeStep {
    match size {
        Err(e) => SizeStep::Reply(
            TakeReply { code: request_fault(e), len: None, next_seq: None },
        ),
        Ok(n) => if room == 0 || n > room {
            SizeStep::Reply(TakeReply { code: -2i32, len: size_out(Some(n)), next_seq: None })
        } else {
            SizeStep::Take
        },
    }
}

/// A size, or the text of why there is none.
pub open spec fn result_text(r: Result<usize, &str>) -> Result<usize, Seq<char>> {
    match r {
        Ok(n) => Ok(n),
        Err(e) => Err(e@),
    }
}

/// Decides what to do with a request of this size. A caller without enough room, or
/// without any, is told the size.
pub fn request_size_step(size: Result<usize, &str>, room: u32) -> (r: SizeStep)
    ensures
        r == request_step(result_text(size), room),
{
    match size {
        Err(e) => SizeStep::Reply(
            TakeReply { code: request_fault_code(e), len: None, next_seq: None },
        ),
        Ok(n) => if room == 0 || n > room as usize {
            SizeStep::Reply(TakeReply { code: -2, len: written_size(Some(n)), next_seq: None })
        } else {
            SizeStep::Take
        },
    }
}

/// The reply to a take of a request: `size` is what the look at its size gave, and
/// `taken` what taking it gave, where that came to pass.
pub fn axon_session_take_request(
    room: u32,
    size: Result<usize, &str>,
    taken: Result<usize, &str>,
) -> (r: TakeReply)
    ensures
        r == (match request_step(result_text(size), room) {
            SizeStep::Reply(reply) => reply,
            SizeStep::Take => match taken {
                Ok(n) => TakeReply { code: 0, len: size_out(Some(n)), next_seq: None },
                Err(e) => TakeReply { code: request_fault(e@), len: None, next_seq: None },
            },
        }),
{
    match request_size_step(size, room) {
        SizeStep::Reply(reply) => reply,
        SizeStep::Take => match taken {
            Ok(n) => TakeReply { code: 0, len: written_size(Some(n)), next_seq: None },
            Err(e) => TakeReply { code: request_fault_code(e), len: None, next_seq: None },
        },
    }
}

/// What a look at a response of this size comes to. Every failure has the same code.
pub open spec fn response_step(size: Option<usize>, room: u32) -> SizeStep {
    match size {
        None => SizeStep::Reply(TakeReply { code: -1i32, len: None, next_seq: None }),
        Some(n) => if room == 0 || n > room {
            SizeStep::Reply(TakeReply { code: -2i32, len: size_out(size), next_seq: None })
        } else {
            SizeStep::Take
        },
    }
}

/// Decides what to do with a response of this size.
pub fn response_size_step(size: Option<usize>, room: u32) -> (r: SizeStep)
    ensures
        r == response_step(size, room),
{
    match size {
        None => SizeStep::Reply(TakeReply { code: -1, len: None, next_seq: None }),
        Some(n) => if room == 0 || n > room as usize {
            SizeStep::Reply(TakeReply { code: -2, len: written_size(size), next_seq: None })
        } else {
            SizeStep::Take
        },
    }
}

/// The reply to a take of a response: `size` is what the look at its size gave, and
/// `taken` what taking it gave, where that came to pass.
pub fn axon_session_take_response(room: u32, size: Option<usize>, taken: Option<usize>) -> (r:
    TakeReply)
    ensures
        r == (match response_step(size, room) {
            SizeStep::Reply(reply) => reply,
            SizeStep::Take => TakeReply {
                code: if taken is Some {
                    0
                } else {
                    -1i32
                },
                len: size_out(taken),
                next_seq: None,
            },
        }),
{
    match response_size_step(size, room) {
        SizeStep::Reply(reply) => reply,
        SizeStep::Take => TakeReply {
            code: if taken.is_some() {
                0
            } else {
                -1
            },
            len: written_size(taken),
            next_seq: None,
        },
    }
}

/// What came of a take of the next response for one client.
#[derive(Clone, Copy, Debug, PartialEq, Eq, Structural)]
pub enum ServiceResponseTake {
    Taken { size: usize, next_seq: u64, request_sequence: i64 },
    BufferTooSmall { required: usize },
    NoMatch { next_seq: u64 },
}

/// What the caller of such a take is told; the number of the request is written back
/// where there is one.
#[derive(Clone, Copy, Debug, PartialEq, Eq, Structural)]
pub struct ClientReply {
    pub reply: TakeReply,
    pub request_sequence: Option<i64>,
}

/// The reply to a take of the next response for one client. Responses for others
/// advance the sequence; one that does not fit does not.
pub fn axon_session_take_response_for_client(taken: Option<ServiceResponseTake>) -> (r: ClientReply)
    ensures
        r == (match taken {
            Some(ServiceResponseTake::Taken { size, next_seq, request_sequence }) => ClientReply {
                reply: TakeReply {
                    code: 0,
                    len: size_out(Some(size)),
                    next_seq: Some(next_seq),
                },
                request_sequence: Some(request_sequence),
            },
            Some(ServiceResponseTake::BufferTooSmall { required }) => ClientReply {
                reply: TakeReply { code: -2i32, len: size_out(Some(required)), next_seq: None },
                request_sequence: None,
            },
            Some(ServiceResponseTake::NoMatch { next_seq }) => ClientReply {
                reply: TakeReply { code: -1i32, len: None, next_seq: Some(next_seq) },
                request_sequence: None,
            },
            None => ClientReply {
                reply: TakeReply { code: -1i32, len: None, next_seq: None },
                request_sequence: None,
            },
        }),
{
    match taken {
        Some(ServiceResponseTake::Taken { size, next_seq, request_sequence }) => ClientReply {
            reply: TakeReply {
                code: 0,
                len: written_size(Some(size)),
                next_seq: Some(next_seq),
            },
            request_sequence: Some(request_sequence),
        },
        Some(ServiceResponseTake::BufferTooSmall { required }) => ClientReply {
            reply: TakeReply { code: -2i32, len: written_size(Some(required)), next_seq: None },
            request_sequence: None,
        },
        Some(ServiceResponseTake::NoMatch { next_seq }) => ClientReply {
            reply: TakeReply { code: -1i32, len: None, next_seq: Some(next_seq) },
            request_sequence: None,
        },
        None => ClientReply {
            reply: TakeReply { code: -1i32, len: None, next_seq: None },
            request_sequence: None,
        },
    }
}

/// The code for whether there is something to take: 1 or 0, or -1i32 where that is not
/// known.
pub fn availability_code(available: Option<bool>) -> (r: i32)
    ensures
        r == (match available {
            Some(true) => 1i32,
            Some(false) => 0i32,
            None => -1i32,
        }),
{
    match available {
        Some(true) => 1,
        Some(false) => 0,
        None => -1i32,
    }
}

/// A caller whose buffer was too small for the next message, and who tries again with
/// the size it was told, gets the message, and the sequence advances past it.
pub proof fn law_told_size_suffices(
    size: usize,
    seq: u64,
    capacity: u32,
    found: Option<(usize, u64)>,
)
    requires
        capacity < size <= u32::MAX,
        seq < u64::MAX,
    ensures
        ({
            let first = next_reply(TakePlan::Receive, Some((size, seq)), capacity, found);
            let again = next_reply(
                plan_of(first.len->0, true),
                Some((size, seq)),
                first.len->0,
                found,
            );
            &&& first.code == -2
            &&& first.len is Some
            &&& again.code == 0
            &&& again.len == Some(size as u32)
            &&& again.next_seq == Some((seq + 1) as u64)
        }),
{
}

/// A take succeeds exactly where the caller has a buffer and something was received that
/// it has room for. A caller without room is told the size, and one without a buffer
/// nothing.
pub proof fn law_take_succeeds_exactly(
    capacity: u32,
    has_buffer: bool,
    received: Option<usize>,
    size: Option<usize>,
)
    ensures
        ({
            let r = reply_at(plan_of(capacity, has_buffer), received, capacity, size);
            &&& r.code == 0 <==> capacity > 0 && has_buffer && (received matches Some(n) && n
                <= capacity)
            &&& r.code == 0 || r.code == -1
            &&& r.code == 0 ==> r.len == Some(received->0 as u32)
            &&& capacity == 0 ==> r.len == size_out(size)
            &&& capacity > 0 && !has_buffer ==> r.len is None
            &&& capacity > 0 && has_buffer && received is None ==> r.len == size_out(size)
            &&& capacity > 0 && has_buffer && received is Some ==> r.len == size_out(received)
            &&& r.next_seq is None
        }),
        size matches Some(n) ==> (n <= u32::MAX ==> size_out(size) == Some(n as u32)),
        size is None ==> size_out(size) is None,
{
}

/// A take of the next message moves on past it exactly where it succeeds. One for which
/// there is too little room stays where it is and tells its size; and where there is
/// nothing, nothing is told but that.
pub proof fn law_take_next_moves_on_exactly(
    capacity: u32,
    has_buffer: bool,
    received: Option<(usize, u64)>,
    found: Option<(usize, u64)>,
)
    requires
        received matches Some(m) ==> m.1 < u64::MAX,
    ensures
        ({
            let r = next_reply(plan_of(capacity, has_buffer), received, capacity, found);
            &&& r.code == 0 <==> capacity > 0 && has_buffer && (received matches Some(m) && m.0
                <= capacity)
            &&& r.code == 0 ==> r.next_seq == Some(((received->0).1 + 1) as u64) && r.len == Some(
                (received->0).0 as u32,
            )
            &&& r.code == -2 <==> capacity > 0 && has_buffer && (match received {
                Some(m) => m.0 > capacity,
                None => found is Some,
            })
            &&& r.code == -2 ==> r.next_seq == Some(match received {
                Some(m) => m.1,
                None => (found->0).1,
            })
            &&& r.code == -3 <==> capacity > 0 && has_buffer && received is None && found is None
            &&& r.code == -1 <==> capacity == 0 || !has_buffer
            &&& capacity == 0 && found is Some ==> r.next_seq == Some((found->0).1) && r.len
                == size_out(Some((found->0).0))
            &&& r.code == -3 || (capacity > 0 && !has_buffer) ==> r.len is None && r.next_seq is None
        }),
{
}

/// A request or a response is taken exactly where the caller has room for it; one who
/// has not is told the size, and one for whom there is none that there is none. A
/// request that is being written is told apart from one that cannot be had.
pub proof fn law_taken_where_there_is_room(
    size: Result<usize, Seq<char>>,
    found: Option<usize>,
    room: u32,
)
    ensures
        request_step(size, room) is Take <==> room > 0 && (size matches Ok(n) && n <= room),
        size matches Ok(n) ==> (room == 0 || n > room ==> request_step(size, room)
            == SizeStep::Reply(
            TakeReply { code: -2i32, len: size_out(Some(n)), next_seq: None },
        )),
        size matches Err(e) ==> (request_step(size, room) matches SizeStep::Reply(r) && r.len is None
            && (r.code == -3 || r.code == -1) && (r.code == -3 <==> e == "slot not yet written"@)),
        response_step(found, room) is Take <==> room > 0 && (found matches Some(n) && n <= room),
        found matches Some(n) ==> (room == 0 || n > room ==> response_step(found, room)
            == SizeStep::Reply(
            TakeReply { code: -2i32, len: size_out(Some(n)), next_seq: None },
        )),
        found is None ==> response_step(found, room) == SizeStep::Reply(
            TakeReply { code: -1i32, len: None, next_seq: None },
        ),
{
}

/// A failed look at a request is worth another try exactly if its slot was still being
/// written, and only then has a code of its own.
pub proof fn law_unwritten_request_is_told_apart(error: Seq<char>)
    ensures
        request_fault(error) == -3 <==> error == "slot not yet written"@,
        request_fault(error) != -3 <==> request_fault(error) == -1,
{
}

} // verus!
