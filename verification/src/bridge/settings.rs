//! How the settings and arguments of C callers become values of this library.
use vstd::prelude::*;

use crate::duration::Duration;
use crate::qos::{
    Durability, HistoryKind, Liveliness, QosProfile, Reliability, DEFAULT_MAX_MESSAGE_SIZE,
};
use crate::security_mode::SecurityMode;
#[allow(unused_imports)]
use crate::text;
use crate::text::{
    chars_of, find_first, parse_unsigned, push_decimal, text_equal, text_of, trim_text,
};

verus! {

/// The parts of the longest span, which stands for no limit.
pub const RMW_DURATION_INFINITE_SEC: u64 = 9_223_372_036;

pub const RMW_DURATION_INFINITE_NSEC: u32 = 854_775_807;

/// The span in nanoseconds that stands for no limit.
pub open spec fn endless() -> int {
    RMW_DURATION_INFINITE_SEC * 1_000_000_000 + RMW_DURATION_INFINITE_NSEC
}

/// The span of `sec` seconds and `nsec` nanoseconds, of which there may be more than
/// a second's. No time at all and an endless time stand for no span.
pub fn duration_from_rmw_parts(sec: u64, nsec: u32) -> (r: Option<Duration>)
    ensures
        r is None <==> (sec == 0 && nsec == 0) || sec * 1_000_000_000 + nsec >= endless(),
        r matches Some(d) ==> d.wf() && d.total() == sec * 1_000_000_000 + nsec,
{
    if sec == 0 && nsec == 0 {
        return None;
    }
    if sec > RMW_DURATION_INFINITE_SEC || (sec == RMW_DURATION_INFINITE_SEC && nsec
        >= RMW_DURATION_INFINITE_NSEC) {
        return None;
    }
    let extra_secs: u64 = (nsec / 1_000_000_000) as u64;
    let nanos: u32 = nsec % 1_000_000_000;
    let secs: u64 = sec + extra_secs;
    if secs > RMW_DURATION_INFINITE_SEC || (secs == RMW_DURATION_INFINITE_SEC && nanos
        >= RMW_DURATION_INFINITE_NSEC) {
        return None;
    }
    Some(Duration { secs, nanos })
}

/// The liveliness that a number of the C interface stands for.
pub fn liveliness_from_ffi(liveliness: i32) -> (r: Liveliness)
    ensures
        r == liveliness_of(liveliness),
{
    match liveliness {
        1 => Liveliness::ManualByTopic,
        2 => Liveliness::ManualByParticipant,
        _ => Liveliness::Automatic,
    }
}

pub open spec fn liveliness_of(n: i32) -> Liveliness {
    if n == 1 {
        Liveliness::ManualByTopic
    } else if n == 2 {
        Liveliness::ManualByParticipant
    } else {
        Liveliness::Automatic
    }
}

/// A profile as C callers give it.
#[derive(Clone, Copy, Debug, PartialEq, Eq, Structural)]
pub struct QosInput {
    pub reliability: i32,
    pub durability: i32,
    pub history_kind: i32,
    pub depth: i32,
    pub deadline_s: u64,
    pub deadline_ns: u32,
    pub lifespan_s: u64,
    pub lifespan_ns: u32,
    pub liveliness: i32,
    pub lease_s: u64,
    pub lease_ns: u32,
}

/// Whether an optional span is the one that its parts stand for.
pub open spec fn spans(d: Option<Duration>, sec: u64, nsec: u32) -> bool {
    let total = sec * 1_000_000_000 + nsec;
    match d {
        None => total == 0 || total >= endless(),
        Some(t) => 0 < total < endless() && t.wf() && t.total() == total,
    }
}

/// Whether a profile has what `q` asks for, apart from its history and size: every
/// number but zero asks for reliable and for transient local.
pub open spec fn follows(p: QosProfile, q: QosInput) -> bool {
    &&& p.reliability == (if q.reliability == 0 {
        Reliability::BestEffort
    } else {
        Reliability::Reliable
    })
    &&& p.durability == (if q.durability == 0 {
        Durability::Volatile
    } else {
        Durability::TransientLocal
    })
    &&& p.bandwidth_limit is None
    &&& spans(p.deadline, q.deadline_s, q.deadline_ns)
    &&& spans(p.lifespan, q.lifespan_s, q.lifespan_ns)
    &&& p.liveliness == liveliness_of(q.liveliness)
    &&& spans(p.liveliness_lease_duration, q.lease_s, q.lease_ns)
}

/// The profile that `q` asks for, with this history and size.
fn profile_from(q: &QosInput, history: HistoryKind, max_message_size: usize) -> (r: QosProfile)
    ensures
        follows(r, *q),
        r.history == history,
        r.max_message_size == max_message_size,
{
    QosProfile {
        reliability: if q.reliability == 0 {
            Reliability::BestEffort
        } else {
            Reliability::Reliable
        },
        durability: if q.durability == 0 {
            Durability::Volatile
        } else {
            Durability::TransientLocal
        },
        history,
        bandwidth_limit: None,
        max_message_size,
        deadline: duration_from_rmw_parts(q.deadline_s, q.deadline_ns),
        lifespan: duration_from_rmw_parts(q.lifespan_s, q.lifespan_ns),
        liveliness: liveliness_from_ffi(q.liveliness),
        liveliness_lease_duration: duration_from_rmw_parts(q.lease_s, q.lease_ns),
    }
}

/// The history of a publisher: a kind of 1 keeps the last messages, to the depth that
/// is given; any other kind keeps all.
pub open spec fn publisher_history(q: QosInput) -> HistoryKind {
    if q.history_kind == 1 {
        HistoryKind::KeepLast { depth: q.depth as usize }
    } else {
        HistoryKind::KeepAll
    }
}

/// The history of a subscription, a service or a client: a kind of 0 keeps all; any
/// other keeps the last messages, ten where no depth is given.
pub open spec fn reader_history(q: QosInput) -> HistoryKind {
    if q.history_kind == 0 {
        HistoryKind::KeepAll
    } else {
        HistoryKind::KeepLast {
            depth: if q.depth <= 0 {
                10
            } else {
                q.depth as usize
            },
        }
    }
}

/// The profile of a publisher.
pub fn publisher_qos_from_ffi(q: &QosInput) -> (r: QosProfile)
    ensures
        follows(r, *q),
        r.history == publisher_history(*q),
        r.max_message_size == DEFAULT_MAX_MESSAGE_SIZE,
{
    let history = match q.history_kind {
        1 => HistoryKind::KeepLast { depth: #[verifier::truncate] (q.depth as usize) },
        _ => HistoryKind::KeepAll,
    };
    profile_from(q, history, DEFAULT_MAX_MESSAGE_SIZE)
}

fn history_of_reader(q: &QosInput) -> (r: HistoryKind)
    ensures
        r == reader_history(*q),
{
    if q.history_kind == 0 {
        HistoryKind::KeepAll
    } else {
        HistoryKind::KeepLast {
            depth: if q.depth <= 0 {
                10
            } else {
                q.depth as usize
            },
        }
    }
}

/// The profile of a subscription.
pub fn subscription_qos_from_ffi(q: &QosInput) -> (r: QosProfile)
    ensures
        follows(r, *q),
        r.history == reader_history(*q),
        r.max_message_size == DEFAULT_MAX_MESSAGE_SIZE,
{
    profile_from(q, history_of_reader(q), DEFAULT_MAX_MESSAGE_SIZE)
}

/// Whether `s` starts with `start`.
pub open spec fn starts_with(s: Seq<char>, start: Seq<char>) -> bool {
    s.len() >= start.len() && s.subrange(0, start.len() as int) == start
}

fn text_starts_with(s: &str, start: &str) -> (r: bool)
    ensures
        r == starts_with(s@, start@),
{
    let a = chars_of(s);
    let b = chars_of(start);
    if a.len() < b.len() {
        return false;
    }
    let mut i: usize = 0;
    while i < b.len()
        invariant
            i <= b@.len() <= a@.len(),
            a@ == s@,
            b@ == start@,
            forall|k: int| 0 <= k < i ==> a@[k] == b@[k],
        decreases b@.len() - i,
    {
        if a[i] != b[i] {
            assert(s@.subrange(0, b@.len() as int)[i as int] != start@[i as int]);
            return false;
        }
        i += 1;
    }
    proof {
        assert(s@.subrange(0, start@.len() as int) =~= start@);
    }
    true
}

/// Whether `s` ends with `end`.
pub open spec fn ends_with(s: Seq<char>, end: Seq<char>) -> bool {
    s.len() >= end.len() && s.subrange(s.len() - end.len(), s.len() as int) == end
}

/// Whether `s` ends with `end`.
pub(crate) fn text_ends_with(s: &str, end: &str) -> (r: bool)
    ensures
        r == ends_with(s@, end@),
{
    let a = chars_of(s);
    let b = chars_of(end);
    if a.len() < b.len() {
        return false;
    }
    let off: usize = a.len() - b.len();
    let mut i: usize = 0;
    while i < b.len()
        invariant
            i <= b@.len() <= a@.len(),
            off == a@.len() - b@.len(),
            a@.len() <= usize::MAX,
            a@ == s@,
            b@ == end@,
            forall|k: int| 0 <= k < i ==> a@[off + k] == b@[k],
        decreases b@.len() - i,
    {
        if a[off + i] != b[i] {
            assert(s@.subrange(off as int, s@.len() as int)[i as int] != end@[i as int]);
            return false;
        }
        i += 1;
    }
    proof {
        assert(s@.subrange(off as int, s@.len() as int) =~= end@);
    }
    true
}

/// The largest message of a service of this type, unless a setting says otherwise.
/// Services have two topics per endpoint, and nodes have many services, so common
/// types get small slots.
pub open spec fn service_size(service_type: Seq<char>) -> nat {
    if service_type == "example_interfaces/srv/AddTwoInts"@ || service_type
        == "std_srvs/srv/Empty"@ || service_type == "std_srvs/srv/SetBool"@ || service_type
        == "std_srvs/srv/Trigger"@ {
        4096
    } else if starts_with(service_type, "rcl_interfaces/srv/"@) {
        262144
    } else if starts_with(service_type, "example_interfaces/srv/"@) {
        65536
    } else {
        1048576
    }
}

/// The largest message of a service: what the setting says, where it is a number;
/// else what its type asks for.
pub fn service_max_message_size(service_type: &str, setting: Option<&str>) -> (r: usize)
    ensures
        r == (match setting {
            Some(v) => match text::unsigned_value(v@, usize::MAX as nat) {
                Some(n) => n,
                None => service_size(service_type@),
            },
            None => service_size(service_type@),
        }),
{
    if let Some(v) = setting {
        if let Some(n) = parse_unsigned(v, usize::MAX as u64) {
            return n as usize;
        }
    }
    if text_equal(service_type, "example_interfaces/srv/AddTwoInts") || text_equal(
        service_type,
        "std_srvs/srv/Empty",
    ) || text_equal(service_type, "std_srvs/srv/SetBool") || text_equal(
        service_type,
        "std_srvs/srv/Trigger",
    ) {
        4096
    } else if text_starts_with(service_type, "rcl_interfaces/srv/") {
        262144
    } else if text_starts_with(service_type, "example_interfaces/srv/") {
        65536
    } else {
        1048576
    }
}

/// The profile of a service or of a client.
pub fn qos_from_ffi(service_type: &str, setting: Option<&str>, q: &QosInput) -> (r: QosProfile)
    ensures
        follows(r, *q),
        r.history == reader_history(*q),
        r.max_message_size == (match setting {
            Some(v) => match text::unsigned_value(v@, usize::MAX as nat) {
                Some(n) => n,
                None => service_size(service_type@),
            },
            None => service_size(service_type@),
        }),
{
    profile_from(q, history_of_reader(q), service_max_message_size(service_type, setting))
}

/// The profile of a service or of a client of which only the reliability is given.
pub fn service_default_qos(service_type: &str, setting: Option<&str>, reliability: i32) -> (r:
    QosProfile)
    ensures
        ({
            let p = if reliability == 0 {
                QosProfile::plain(Reliability::BestEffort, 5)
            } else {
                QosProfile::plain(Reliability::Reliable, 1)
            };
            r == (QosProfile { max_message_size: r.max_message_size, ..p })
        }),
        r.max_message_size == (match setting {
            Some(v) => match text::unsigned_value(v@, usize::MAX as nat) {
                Some(n) => n,
                None => service_size(service_type@),
            },
            None => service_size(service_type@),
        }),
{
    let mut qos = if reliability == 0 {
        QosProfile::default_sensor()
    } else {
        QosProfile::default_command()
    };
    qos.max_message_size = service_max_message_size(service_type, setting);
    qos
}

/// The two ends of a range of ports, written as `start-end`.
pub open spec fn port_ends(value: Seq<char>) -> Option<(u16, u16)> {
    match text::first_index(value, '-') {
        None => None,
        Some(dash) => {
            let low = text::unsigned_value(text::trimmed(value.subrange(0, dash)), u16::MAX as nat);
            let high = text::unsigned_value(
                text::trimmed(value.subrange(dash + 1, value.len() as int)),
                u16::MAX as nat,
            );
            if low is None || high is None || low->0 == 0 || high->0 < low->0 {
                None
            } else {
                Some((low->0 as u16, high->0 as u16))
            }
        },
    }
}

/// Reads a range of ports written as `start-end`. `None` unless both ends are numbers
/// of 16 bits and the first is at least 1 and at most the second.
pub fn parse_port_range(value: &str) -> (r: Option<(u16, u16)>)
    ensures
        r == port_ends(value@),
{
    let chars = chars_of(value);
    let n: usize = chars.len();
    match find_first(&chars, '-') {
        None => None,
        Some(dash) => {
            let low_text = text_of(&chars, 0, dash);
            let high_text = text_of(&chars, dash + 1, n);
            let low: u64 = parse_unsigned(&trim_text(&low_text), 65535)?;
            let high: u64 = parse_unsigned(&trim_text(&high_text), 65535)?;
            if low == 0 || high < low {
                return None;
            }
            Some((low as u16, high as u16))
        },
    }
}

/// How many ports a configured range yields at most.
pub const MAX_QUIC_CANDIDATES: usize = 1024;

/// The ports to try for a session: a valid single port wins, then at most 1024 ports
/// of a valid range; else any port will do, which zero asks for.
pub open spec fn quic_ports(port: Option<Seq<char>>, range: Option<Seq<char>>) -> Seq<u16> {
    let single = match port {
        Some(v) => text::unsigned_value(text::trimmed(v), u16::MAX as nat),
        None => None,
    };
    if single is Some {
        seq![single->0 as u16]
    } else if range is Some && port_ends(range->0) is Some {
        let (start, end) = port_ends(range->0)->0;
        Seq::new(
            (if end - start < MAX_QUIC_CANDIDATES {
                end - start + 1
            } else {
                MAX_QUIC_CANDIDATES as int
            }) as nat,
            |i: int| (start + i) as u16,
        )
    } else {
        seq![0u16]
    }
}

/// Chooses the ports to try for a session from the setting of a port and that of a
/// range of ports.
pub fn quic_port_candidates(port: Option<&str>, range: Option<&str>) -> (r: Vec<u16>)
    ensures
        r@ == quic_ports(text::opt_str(port), text::opt_str(range)),
{
    let mut out: Vec<u16> = Vec::new();
    if let Some(value) = port {
        if let Some(n) = parse_unsigned(&trim_text(value), 65535) {
            out.push(n as u16);
            proof {
                assert(out@ =~= seq![n as u16]);
            }
            return out;
        }
    }
    if let Some(value) = range {
        if let Some((start, end)) = parse_port_range(value) {
            let mut p: u32 = start as u32;
            while p <= end as u32 && out.len() < MAX_QUIC_CANDIDATES
                invariant
                    start <= p <= end + 1,
                    out@.len() == p - start,
                    out@.len() <= MAX_QUIC_CANDIDATES,
                    forall|k: int| 0 <= k < out@.len() ==> (#[trigger] out@[k]) == start + k,
                decreases end + 1 - p,
            {
                out.push(p as u16);
                p += 1;
            }
            proof {
                assert(out@ =~= quic_ports(text::opt_str(port), text::opt_str(range)));
            }
            return out;
        }
    }
    out.push(0);
    proof {
        assert(out@ =~= seq![0u16]);
    }
    out
}

/// The report that a session could not be made on a port.
pub fn port_failure(port: u16, error: &str) -> (r: String)
    ensures
        r@ == "port "@ + text::decimal(port as nat) + ": "@ + error@,
{
    let mut s = "port ".to_owned();
    push_decimal(&mut s, port as u64);
    s.append(": ");
    s.append(error);
    s
}

/// Whether a session may go on without the daemon. It may not where keys have to
/// come from a key manager, or where the security profile is not known.
pub fn may_fall_back(mode: Option<SecurityMode>) -> (r: bool)
    ensures
        r == (mode == Some(SecurityMode::Classic)),
{
    match mode {
        Some(SecurityMode::Classic) => true,
        _ => false,
    }
}

/// The report that a session does not exist.
pub fn missing_session(session_id: u64, sessions: usize) -> (r: String)
    ensures
        r@ == "session "@ + text::decimal(session_id as nat) + " not found ("@ + text::decimal(
            sessions as nat,
        ) + " sessions exist)"@,
{
    let mut s = "session ".to_owned();
    push_decimal(&mut s, session_id);
    s.append(" not found (");
    push_decimal(&mut s, sessions as u64);
    s.append(" sessions exist)");
    s
}

/// Which messages an access rule speaks of.
#[derive(Clone, Copy, Debug, PartialEq, Eq, Structural)]
pub enum AclDirection {
    Publish,
    Subscribe,
}

/// The direction that a number of the C interface stands for.
pub fn acl_direction(direction: i32) -> (r: Option<AclDirection>)
    ensures
        r == (if direction == 0 {
            Some(AclDirection::Publish)
        } else if direction == 1 {
            Some(AclDirection::Subscribe)
        } else {
            None
        }),
{
    match direction {
        0 => Some(AclDirection::Publish),
        1 => Some(AclDirection::Subscribe),
        _ => None,
    }
}

/// A descriptor that is signalled when the graph changes, and the duplicate of it
/// that the session owns.
#[derive(Clone, Copy, Debug, PartialEq, Eq, Structural)]
pub struct GraphEventFd {
    pub original: i32,
    pub signal: i32,
}

/// Whether a descriptor is registered.
pub open spec fn registered(fds: Seq<GraphEventFd>, fd: i32) -> bool {
    exists|i: int| 0 <= i < fds.len() && (#[trigger] fds[i]).original == fd
}

/// What registering a descriptor takes.
#[derive(Clone, Copy, Debug, PartialEq, Eq, Structural)]
pub enum Registration {
    /// It is no descriptor.
    Refused,
    /// It is registered already.
    Done,
    /// A duplicate of it has to be made, and handed to `add_graph_fd`.
    Duplicate,
}

/// Decides what registering a descriptor takes.
pub fn registration_step(fds: &[GraphEventFd], event_fd: i32) -> (r: Registration)
    ensures
        r == (if event_fd < 0 {
            Registration::Refused
        } else if registered(fds@, event_fd) {
            Registration::Done
        } else {
            Registration::Duplicate
        }),
{
    if event_fd < 0 {
        return Registration::Refused;
    }
    let mut i: usize = 0;
    while i < fds.len()
        invariant
            i <= fds@.len(),
            forall|k: int| 0 <= k < i ==> (#[trigger] fds@[k]).original != event_fd,
            event_fd >= 0,
        decreases fds@.len() - i,
    {
        if fds[i].original == event_fd {
            return Registration::Done;
        }
        i += 1;
    }
    Registration::Duplicate
}

/// Registers a descriptor with its duplicate. Returns 0, or -1 where no duplicate
/// could be made.
pub fn add_graph_fd(fds: &mut Vec<GraphEventFd>, event_fd: i32, duplicate: i32) -> (r: i32)
    ensures
        duplicate < 0 ==> r == -1 && final(fds)@ == old(fds)@,
        duplicate >= 0 ==> r == 0 && final(fds)@ == old(fds)@.push(
            GraphEventFd { original: event_fd, signal: duplicate },
        ),
{
    if duplicate < 0 {
        return -1;
    }
    fds.push(GraphEventFd { original: event_fd, signal: duplicate });
    0
}

/// The descriptors without one.
pub open spec fn without_fd(fds: Seq<GraphEventFd>, fd: i32) -> Seq<GraphEventFd>
    decreases fds.len(),
{
    if fds.len() == 0 {
        fds
    } else if fds.last().original == fd {
        without_fd(fds.drop_last(), fd)
    } else {
        without_fd(fds.drop_last(), fd).push(fds.last())
    }
}

/// Takes a descriptor off the list. Returns 0, or -1 where it is none.
pub fn remove_graph_fd(fds: &mut Vec<GraphEventFd>, event_fd: i32) -> (r: i32)
    ensures
        event_fd < 0 ==> r == -1 && final(fds)@ == old(fds)@,
        event_fd >= 0 ==> r == 0 && final(fds)@ == without_fd(old(fds)@, event_fd),
{
    if event_fd < 0 {
        return -1;
    }
    let ghost before = fds@;
    let mut kept: Vec<GraphEventFd> = Vec::new();
    let mut i: usize = 0;
    proof {
        assert(before.subrange(0, 0) =~= Seq::<GraphEventFd>::empty());
    }
    while i < fds.len()
        invariant
            i <= fds@.len(),
            fds@ == before,
            kept@ == without_fd(before.subrange(0, i as int), event_fd),
        decreases fds@.len() - i,
    {
        proof {
            assert(before.subrange(0, i + 1).drop_last() =~= before.subrange(0, i as int));
        }
        if fds[i].original != event_fd {
            kept.push(fds[i]);
        }
        i += 1;
    }
    proof {
        assert(before.subrange(0, i as int) =~= before);
    }
    *fds = kept;
    0
}

/// A descriptor that was taken off the list is not registered any more.
pub proof fn law_removed_fd_is_gone(fds: Seq<GraphEventFd>, fd: i32)
    ensures
        !registered(without_fd(fds, fd), fd),
    decreases fds.len(),
{
    if fds.len() > 0 {
        law_removed_fd_is_gone(fds.drop_last(), fd);
        let rest = without_fd(fds.drop_last(), fd);
        assert forall|i: int| 0 <= i < without_fd(fds, fd).len() implies (
        #[trigger] without_fd(fds, fd)[i]).original != fd by {
            if i < rest.len() {
                assert(rest[i].original != fd);
            }
        }
    }
}

/// The span that stands for no limit is the longest that a signed number of 64 bits
/// tells in nanoseconds.
pub proof fn law_endless_is_the_longest_span()
    ensures
        endless() == i64::MAX,
{
}

/// A profile has what was asked for, policy by policy: zero asks for best effort and for
/// volatile, anything else for reliable and for transient local; one and two ask for the
/// manual kinds of liveliness; and a span is the one that its parts add up to, or none
/// where they are nothing or endless.
pub proof fn law_profile_has_what_was_asked(p: QosProfile, q: QosInput)
    requires
        follows(p, q),
    ensures
        p.reliability is BestEffort <==> q.reliability == 0,
        p.durability is Volatile <==> q.durability == 0,
        p.liveliness is ManualByTopic <==> q.liveliness == 1,
        p.liveliness is ManualByParticipant <==> q.liveliness == 2,
        p.liveliness !is Unknown,
        p.bandwidth_limit is None,
        p.deadline is None <==> q.deadline_s * 1_000_000_000 + q.deadline_ns == 0 || q.deadline_s
            * 1_000_000_000 + q.deadline_ns >= i64::MAX,
        p.deadline matches Some(d) ==> d.secs * 1_000_000_000 + d.nanos == q.deadline_s
            * 1_000_000_000 + q.deadline_ns && d.nanos < 1_000_000_000,
        p.lifespan is None <==> q.lifespan_s * 1_000_000_000 + q.lifespan_ns == 0 || q.lifespan_s
            * 1_000_000_000 + q.lifespan_ns >= i64::MAX,
        p.lifespan matches Some(d) ==> d.secs * 1_000_000_000 + d.nanos == q.lifespan_s
            * 1_000_000_000 + q.lifespan_ns && d.nanos < 1_000_000_000,
        p.liveliness_lease_duration is None <==> q.lease_s * 1_000_000_000 + q.lease_ns == 0
            || q.lease_s * 1_000_000_000 + q.lease_ns >= i64::MAX,
        p.liveliness_lease_duration matches Some(d) ==> d.secs * 1_000_000_000 + d.nanos
            == q.lease_s * 1_000_000_000 + q.lease_ns && d.nanos < 1_000_000_000,
{
}

/// A publisher keeps all messages unless it asks for the last ones; a reader keeps the
/// last ones unless it asks for all, ten where it gives no depth.
pub proof fn law_histories_of_publishers_and_readers(q: QosInput)
    ensures
        publisher_history(q) is KeepAll <==> q.history_kind != 1,
        q.history_kind == 1 && q.depth >= 0 ==> publisher_history(q) == (HistoryKind::KeepLast {
            depth: q.depth as usize,
        }),
        reader_history(q) is KeepAll <==> q.history_kind == 0,
        q.history_kind != 0 && q.depth > 0 ==> reader_history(q) == (HistoryKind::KeepLast {
            depth: q.depth as usize,
        }),
        q.history_kind != 0 && q.depth <= 0 ==> reader_history(q) == (HistoryKind::KeepLast {
            depth: 10,
        }),
{
}

proof fn lemma_plain_number(n: nat, c: char)
    requires
        !('0' <= c <= '9'),
    ensures
        !text::decimal(n).contains(c),
        text::trimmed(text::decimal(n)) == text::decimal(n),
{
    text::lemma_decimal_round_trip(n);
    let s = text::decimal(n);
    if s.contains(c) {
        let k = choose|k: int| 0 <= k < s.len() && s[k] == c;
        assert('0' <= s[k] <= '9');
    }
    assert('0' <= s[0] <= '9');
    assert('0' <= s[s.len() - 1] <= '9');
    assert(text::trim_start(s) == s);
    assert(text::trim_end(s) == s);
}

/// A range of ports that is written down is read back, where it starts at a port and
/// does not end before it; any other is none.
pub proof fn law_port_range_is_read_back(a: nat, b: nat)
    ensures
        port_ends(text::decimal(a) + seq!['-'] + text::decimal(b)) == (if 1 <= a <= b <= 65_535 {
            Some((a as u16, b as u16))
        } else {
            None
        }),
{
    let s = text::decimal(a) + seq!['-'] + text::decimal(b);
    let n = text::decimal(a).len() as int;
    lemma_plain_number(a, '-');
    lemma_plain_number(b, '-');
    text::law_places_of_a_character(s, '-');
    assert(s[n] == '-');
    let dash = text::first_index(s, '-')->0;
    if dash < n {
        assert(text::decimal(a)[dash] == '-');
    }
    assert(dash == n);
    assert(s.subrange(0, n) =~= text::decimal(a));
    assert(s.subrange(n + 1, s.len() as int) =~= text::decimal(b));
    text::lemma_decimal_round_trip(a);
    text::lemma_decimal_round_trip(b);
    assert('0' <= text::decimal(a)[0] <= '9');
    assert('0' <= text::decimal(b)[0] <= '9');
}

/// A text without a dash is no range of ports, and a range starts above zero and does
/// not end before it starts.
pub proof fn law_port_range_is_ordered(value: Seq<char>)
    ensures
        !value.contains('-') ==> port_ends(value) is None,
        port_ends(value) matches Some((a, b)) ==> 1 <= a <= b,
{
    text::law_places_of_a_character(value, '-');
}

/// A port that is set is the only one that is tried; else the ports of the range are
/// tried from its start on, one after the other and at most 1024 of them; and without
/// either any port will do.
pub proof fn law_ports_are_tried_in_order(n: nat, range: Option<Seq<char>>, i: int)
    requires
        n <= 65_535,
    ensures
        quic_ports(Some(text::decimal(n)), range) == seq![n as u16],
        range is None ==> quic_ports(None, range) == seq![0u16],
        range matches Some(r) && port_ends(r) is None ==> quic_ports(None, range) == seq![0u16],
        range matches Some(r) && port_ends(r) is Some ==> ({
            let (a, b) = port_ends(range->0)->0;
            let ports = quic_ports(None, range);
            &&& 1 <= ports.len() <= 1024
            &&& ports.len() == 1024 || ports.len() == b - a + 1
            &&& 0 <= i < ports.len() ==> ports[i] == a + i && ports[i] <= b
        }),
{
    text::law_decimal_round_trip(n, 65_535);
    lemma_plain_number(n, '-');
    if let Some(r) = range {
        law_port_range_is_ordered(r);
    }
}

/// Small services of common types get small slots: all services of the parameter
/// interfaces get as much, and so do those of the example interfaces but the addition,
/// which gets least.
pub proof fn law_service_sizes(s: Seq<char>)
    ensures
        service_size("rcl_interfaces/srv/"@ + s) == 262_144,
        s != "AddTwoInts"@ ==> service_size("example_interfaces/srv/"@ + s) == 65_536,
        service_size("example_interfaces/srv/"@ + "AddTwoInts"@) == 4_096,
        s.len() > 0 && s[0] != 'e' && s[0] != 's' && s[0] != 'r' ==> service_size(s) == 1_048_576,
        service_size(s) <= 1_048_576,
{
    reveal_strlit("rcl_interfaces/srv/");
    reveal_strlit("example_interfaces/srv/");
    reveal_strlit("example_interfaces/srv/AddTwoInts");
    reveal_strlit("AddTwoInts");
    reveal_strlit("std_srvs/srv/Empty");
    reveal_strlit("std_srvs/srv/SetBool");
    reveal_strlit("std_srvs/srv/Trigger");
    let rcl = "rcl_interfaces/srv/"@ + s;
    let ex = "example_interfaces/srv/"@ + s;
    assert(rcl[0] == 'r');
    assert(rcl.subrange(0, 19) =~= "rcl_interfaces/srv/"@);
    assert(ex[0] == 'e');
    assert(ex.subrange(0, 23) =~= "example_interfaces/srv/"@);
    assert("example_interfaces/srv/"@ + "AddTwoInts"@ =~= "example_interfaces/srv/AddTwoInts"@);
    if ex == "example_interfaces/srv/AddTwoInts"@ {
        assert(s =~= ex.subrange(23, ex.len() as int));
        assert("example_interfaces/srv/AddTwoInts"@.subrange(23, 33) =~= "AddTwoInts"@);
    }
    if starts_with(ex, "rcl_interfaces/srv/"@) {
        assert(ex.subrange(0, 19)[0] == 'e');
    }
    if s.len() > 0 && s[0] != 'e' && s[0] != 's' && s[0] != 'r' {
        if starts_with(s, "rcl_interfaces/srv/"@) {
            assert(s.subrange(0, 19)[0] == s[0]);
        }
        if starts_with(s, "example_interfaces/srv/"@) {
            assert(s.subrange(0, 23)[0] == s[0]);
        }
    }
}

/// Taking one descriptor off the list leaves all others on it, in their order.
pub proof fn law_other_fds_stay(a: Seq<GraphEventFd>, b: Seq<GraphEventFd>, f: GraphEventFd, fd: i32)
    ensures
        without_fd(a + b, fd) == without_fd(a, fd) + without_fd(b, fd),
        f.original != fd ==> without_fd(seq![f], fd) == seq![f],
        f.original == fd ==> without_fd(seq![f], fd).len() == 0,
    decreases b.len(),
{
    assert(seq![f].drop_last() =~= Seq::empty());
    assert(without_fd(Seq::empty(), fd) =~= Seq::empty());
    if f.original != fd {
        assert(without_fd(seq![f], fd) =~= seq![f]);
    }
    if b.len() == 0 {
        assert(a + b =~= a);
        assert(without_fd(a, fd) + without_fd(b, fd) =~= without_fd(a, fd));
    } else {
        law_other_fds_stay(a, b.drop_last(), f, fd);
        assert((a + b).drop_last() =~= a + b.drop_last());
        assert(without_fd(a + b, fd) =~= without_fd(a, fd) + without_fd(b, fd));
    }
}

/// Services get the size of their kind: four that carry little get 4096 bytes, those of
/// parameters 262144, other examples 65536, and all others a mebibyte.
pub proof fn law_service_sizes_exactly(s: Seq<char>)
    ensures
        service_size(s) == 4_096 <==> s == "example_interfaces/srv/AddTwoInts"@ || s
            == "std_srvs/srv/Empty"@ || s == "std_srvs/srv/SetBool"@ || s
            == "std_srvs/srv/Trigger"@,
        service_size(s) != 4_096 && service_size(s) != 262_144 && service_size(s) != 65_536
            ==> service_size(s) == 1_048_576,
        service_size(s) == 262_144 ==> starts_with(s, "rcl_interfaces/srv/"@),
        service_size(s) == 65_536 ==> starts_with(s, "example_interfaces/srv/"@),
        service_size(s) == 1_048_576 ==> !starts_with(s, "rcl_interfaces/srv/"@) && !starts_with(
            s,
            "example_interfaces/srv/"@,
        ),
{
}

/// A text starts with another exactly if it is that one with something behind it, and
/// ends with another exactly if it is that one with something in front.
pub proof fn law_starts_and_ends(s: Seq<char>, part: Seq<char>, more: Seq<char>)
    ensures
        starts_with(part + more, part),
        ends_with(more + part, part),
        starts_with(s, part) ==> s == part + s.subrange(part.len() as int, s.len() as int),
        ends_with(s, part) ==> s == s.subrange(0, s.len() - part.len()) + part,
{
    assert((part + more).subrange(0, part.len() as int) =~= part);
    assert((more + part).subrange(more.len() as int, (more + part).len() as int) =~= part);
    if starts_with(s, part) {
        assert(s =~= s.subrange(0, part.len() as int) + s.subrange(
            part.len() as int,
            s.len() as int,
        ));
    }
    if ends_with(s, part) {
        assert(s =~= s.subrange(0, s.len() - part.len()) + s.subrange(
            s.len() - part.len(),
            s.len() as int,
        ));
    }
}

} // verus!
