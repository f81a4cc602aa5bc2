//! Quality of service: what an endpoint offers or asks for, and when the two meet.
use crate::duration::Duration;
use vstd::prelude::*;

verus! {

/// The largest message an endpoint takes, unless it says otherwise.
pub const DEFAULT_MAX_MESSAGE_SIZE: usize = 65536;

/// Whether a lost message is sent again.
#[derive(Debug, Clone, Copy, PartialEq, Eq, Structural)]
pub enum Reliability {
    BestEffort,
    Reliable,
}

/// Whether a late subscriber gets what was published before.
#[derive(Debug, Clone, Copy, PartialEq, Eq, Structural)]
pub enum Durability {
    Volatile,
    TransientLocal,
}

/// How many messages are kept.
#[derive(Debug, Clone, Copy, PartialEq, Eq, Structural)]
pub enum HistoryKind {
    KeepLast { depth: usize },
    KeepAll,
}

/// How an endpoint shows that it is alive.
#[derive(Debug, Clone, Copy, PartialEq, Eq, Structural)]
pub enum Liveliness {
    Automatic,
    ManualByTopic,
    ManualByParticipant,
    Unknown,
}

impl Default for Liveliness {
    fn default() -> (r: Liveliness)
        ensures
            r == Liveliness::Automatic,
    {
        Liveliness::Automatic
    }
}

/// What an endpoint offers or asks for.
#[derive(Debug, Clone, Copy, PartialEq, Eq, Structural)]
pub struct QosProfile {
    pub reliability: Reliability,
    pub durability: Durability,
    pub history: HistoryKind,
    pub bandwidth_limit: Option<usize>,
    pub max_message_size: usize,
    pub deadline: Option<Duration>,
    pub lifespan: Option<Duration>,
    pub liveliness: Liveliness,
    pub liveliness_lease_duration: Option<Duration>,
}

impl QosProfile {
    /// Whether its spans of time are ones.
    pub open spec fn wf(self) -> bool {
        &&& self.deadline matches Some(d) ==> d.wf()
        &&& self.lifespan matches Some(d) ==> d.wf()
        &&& self.liveliness_lease_duration matches Some(d) ==> d.wf()
    }

    /// A profile with neither limits nor time constraints.
    pub open spec fn plain(reliability: Reliability, depth: usize) -> QosProfile {
        QosProfile {
            reliability,
            durability: Durability::Volatile,
            history: HistoryKind::KeepLast { depth },
            bandwidth_limit: None,
            max_message_size: DEFAULT_MAX_MESSAGE_SIZE,
            deadline: None,
            lifespan: None,
            liveliness: Liveliness::Automatic,
            liveliness_lease_duration: None,
        }
    }

    /// The profile of a sensor: best effort, the last five messages.
    pub fn default_sensor() -> (r: QosProfile)
        ensures
            r == QosProfile::plain(Reliability::BestEffort, 5),
    {
        QosProfile {
            reliability: Reliability::BestEffort,
            durability: Durability::Volatile,
            history: HistoryKind::KeepLast { depth: 5 },
            bandwidth_limit: None,
            max_message_size: DEFAULT_MAX_MESSAGE_SIZE,
            deadline: None,
            lifespan: None,
            liveliness: Liveliness::Automatic,
            liveliness_lease_duration: None,
        }
    }

    /// The profile of a command: reliable, the last message.
    pub fn default_command() -> (r: QosProfile)
        ensures
            r == QosProfile::plain(Reliability::Reliable, 1),
    {
        QosProfile {
            reliability: Reliability::Reliable,
            durability: Durability::Volatile,
            history: HistoryKind::KeepLast { depth: 1 },
            bandwidth_limit: None,
            max_message_size: DEFAULT_MAX_MESSAGE_SIZE,
            deadline: None,
            lifespan: None,
            liveliness: Liveliness::Automatic,
            liveliness_lease_duration: None,
        }
    }
}

/// The profile of a remote endpoint. A span of no time stands for none.
#[derive(Debug, Clone, Copy, PartialEq, Eq, Structural)]
pub struct RemoteQos {
    pub reliability: Reliability,
    pub durability: Durability,
    pub history: HistoryKind,
    pub deadline: Duration,
    pub lifespan: Duration,
    pub liveliness: Liveliness,
    pub liveliness_lease_duration: Duration,
    pub avoid_ros_namespace_conventions: bool,
}

/// No time at all.
pub open spec fn no_time() -> Duration {
    Duration { secs: 0, nanos: 0 }
}

/// A span as an optional one: no time is none.
pub open spec fn some_time(d: Duration) -> Option<Duration> {
    if d == no_time() {
        None
    } else {
        Some(d)
    }
}

/// An optional span as a span: none is no time.
pub open spec fn time_or_none(d: Option<Duration>) -> Duration {
    match d {
        Some(d) => d,
        None => no_time(),
    }
}

/// The profile that a remote endpoint's profile stands for.
pub open spec fn local_profile(rq: RemoteQos) -> QosProfile {
    QosProfile {
        reliability: rq.reliability,
        durability: rq.durability,
        history: rq.history,
        bandwidth_limit: None,
        max_message_size: DEFAULT_MAX_MESSAGE_SIZE,
        deadline: some_time(rq.deadline),
        lifespan: some_time(rq.lifespan),
        liveliness: rq.liveliness,
        liveliness_lease_duration: some_time(rq.liveliness_lease_duration),
    }
}

/// What a remote endpoint is told of a profile.
pub open spec fn remote_profile(qos: QosProfile) -> RemoteQos {
    RemoteQos {
        reliability: qos.reliability,
        durability: qos.durability,
        history: qos.history,
        deadline: time_or_none(qos.deadline),
        lifespan: time_or_none(qos.lifespan),
        liveliness: qos.liveliness,
        liveliness_lease_duration: time_or_none(qos.liveliness_lease_duration),
        avoid_ros_namespace_conventions: false,
    }
}

/// A span as an optional one.
fn time_if_any(d: Duration) -> (r: Option<Duration>)
    ensures
        r == some_time(d),
{
    if d.secs == 0 && d.nanos == 0 {
        None
    } else {
        Some(d)
    }
}

/// An optional span as a span.
fn time_or_zero(d: Option<Duration>) -> (r: Duration)
    ensures
        r == time_or_none(d),
{
    match d {
        Some(d) => d,
        None => Duration::from_secs(0),
    }
}

impl From<RemoteQos> for QosProfile {
    fn from(rq: RemoteQos) -> (r: QosProfile) {
        QosProfile {
            reliability: rq.reliability,
            durability: rq.durability,
            history: rq.history,
            bandwidth_limit: None,
            max_message_size: DEFAULT_MAX_MESSAGE_SIZE,
            deadline: time_if_any(rq.deadline),
            lifespan: time_if_any(rq.lifespan),
            liveliness: rq.liveliness,
            liveliness_lease_duration: time_if_any(rq.liveliness_lease_duration),
        }
    }
}

impl vstd::std_specs::convert::FromSpecImpl<RemoteQos> for QosProfile {
    open spec fn obeys_from_spec() -> bool {
        true
    }

    open spec fn from_spec(rq: RemoteQos) -> QosProfile {
        local_profile(rq)
    }
}

impl RemoteQos {
    /// What a remote endpoint is told of a profile.
    pub fn from_qos_profile(qos: &QosProfile) -> (r: RemoteQos)
        ensures
            r == remote_profile(*qos),
    {
        RemoteQos {
            reliability: qos.reliability,
            durability: qos.durability,
            history: qos.history,
            deadline: time_or_zero(qos.deadline),
            lifespan: time_or_zero(qos.lifespan),
            liveliness: qos.liveliness,
            liveliness_lease_duration: time_or_zero(qos.liveliness_lease_duration),
            avoid_ros_namespace_conventions: false,
        }
    }
}

/// The part of a profile that sizes an endpoint's resources.
#[derive(Debug, Clone, Copy, PartialEq, Eq, Structural)]
pub struct QosHints {
    pub reliability: Reliability,
    pub durability: Durability,
    pub history: HistoryKind,
    pub lifespan: Option<Duration>,
    pub bandwidth_limit: Option<usize>,
    pub max_message_size: usize,
}

impl QosHints {
    /// The hints of a profile.
    pub fn from_qos_profile(qos: &QosProfile) -> (r: QosHints)
        ensures
            r.reliability == qos.reliability,
            r.durability == qos.durability,
            r.history == qos.history,
            r.lifespan == qos.lifespan,
            r.bandwidth_limit == qos.bandwidth_limit,
            r.max_message_size == qos.max_message_size,
    {
        QosHints {
            reliability: qos.reliability,
            durability: qos.durability,
            history: qos.history,
            lifespan: qos.lifespan,
            bandwidth_limit: qos.bandwidth_limit,
            max_message_size: qos.max_message_size,
        }
    }
}

/// Whether what a publisher offers is what a subscriber asks for. The depth of the
/// history is each side's own affair.
pub open spec fn compatible(offered: QosProfile, asked: QosProfile) -> bool {
    &&& asked.reliability is Reliable ==> offered.reliability is Reliable
    &&& asked.durability is TransientLocal ==> offered.durability is TransientLocal
    &&& (offered.deadline, asked.deadline) matches (Some(o), Some(a)) ==> o.total() <= a.total()
    &&& asked.liveliness is ManualByTopic ==> !(offered.liveliness is Automatic)
    &&& asked.liveliness is ManualByParticipant ==> offered.liveliness is ManualByParticipant
    &&& (offered.lifespan, asked.lifespan) matches (Some(o), Some(a)) ==> o.total() >= a.total()
}

/// Whether what a publisher offers is what a subscriber asks for.
pub fn qos_profiles_compatible(pub_qos: &QosProfile, sub_qos: &QosProfile) -> (r: bool)
    requires
        pub_qos.wf(),
        sub_qos.wf(),
    ensures
        r == compatible(*pub_qos, *sub_qos),
{
    if pub_qos.reliability == Reliability::BestEffort && sub_qos.reliability
        == Reliability::Reliable {
        return false;
    }
    if sub_qos.durability == Durability::TransientLocal && pub_qos.durability
        == Durability::Volatile {
        return false;
    }
    if let (Some(pub_dl), Some(sub_dl)) = (pub_qos.deadline, sub_qos.deadline) {
        if sub_dl.shorter_than(&pub_dl) {
            return false;
        }
    }
    if sub_qos.liveliness == Liveliness::ManualByTopic && pub_qos.liveliness
        == Liveliness::Automatic {
        return false;
    }
    if sub_qos.liveliness == Liveliness::ManualByParticipant && pub_qos.liveliness
        != Liveliness::ManualByParticipant {
        return false;
    }
    if let (Some(pub_ls), Some(sub_ls)) = (pub_qos.lifespan, sub_qos.lifespan) {
        if pub_ls.shorter_than(&sub_ls) {
            return false;
        }
    }
    true
}

/// A publisher and a subscriber of one profile always meet.
pub proof fn law_same_profile_compatible(q: QosProfile)
    ensures
        compatible(q, q),
{
}

/// Neither the history nor the limits of either side decide whether they meet.
pub proof fn law_depth_is_no_policy(
    offered: QosProfile,
    asked: QosProfile,
    other_offered: QosProfile,
    other_asked: QosProfile,
)
    requires
        other_offered == (QosProfile {
            history: other_offered.history,
            bandwidth_limit: other_offered.bandwidth_limit,
            max_message_size: other_offered.max_message_size,
            ..offered
        }),
        other_asked == (QosProfile {
            history: other_asked.history,
            bandwidth_limit: other_asked.bandwidth_limit,
            max_message_size: other_asked.max_message_size,
            ..asked
        }),
    ensures
        compatible(offered, asked) == compatible(other_offered, other_asked),
{
}

/// A profile that was told to a remote endpoint comes back the same, but for its
/// limits and for spans of no time, which come back as none.
pub proof fn law_remote_profile_round_trip(q: QosProfile)
    requires
        q.deadline != Some(no_time()),
        q.lifespan != Some(no_time()),
        q.liveliness_lease_duration != Some(no_time()),
    ensures
        local_profile(remote_profile(q)) == (QosProfile {
            bandwidth_limit: None,
            max_message_size: DEFAULT_MAX_MESSAGE_SIZE,
            ..q
        }),
{
}

/// The least demanding request is met by every publisher: best effort, volatile,
/// liveliness that the middleware sees to, and no spans.
pub proof fn law_least_request_is_met(offered: QosProfile, asked: QosProfile)
    requires
        asked.reliability is BestEffort,
        asked.durability is Volatile,
        asked.liveliness is Automatic || asked.liveliness is Unknown,
        asked.deadline is None,
        asked.lifespan is None,
    ensures
        compatible(offered, asked),
{
}

/// The most generous offer meets every request: reliable, transient local, liveliness
/// by participant, and no spans.
pub proof fn law_fullest_offer_meets_all(offered: QosProfile, asked: QosProfile)
    requires
        offered.reliability is Reliable,
        offered.durability is TransientLocal,
        offered.liveliness is ManualByParticipant,
        offered.deadline is None,
        offered.lifespan is None,
    ensures
        compatible(offered, asked),
{
}

/// Offering more never breaks a match: not more reliability, not more durability, not a
/// stronger liveliness, not a shorter deadline and not a longer lifespan.
pub proof fn law_raised_offer_still_meets(
    offered: QosProfile,
    asked: QosProfile,
    before: Duration,
    after: Duration,
)
    requires
        compatible(offered, asked),
        before.wf() && after.wf(),
        before.secs < after.secs || (before.secs == after.secs && before.nanos <= after.nanos),
    ensures
        compatible(QosProfile { reliability: Reliability::Reliable, ..offered }, asked),
        compatible(QosProfile { durability: Durability::TransientLocal, ..offered }, asked),
        compatible(QosProfile { liveliness: Liveliness::ManualByParticipant, ..offered }, asked),
        offered.deadline == Some(after) ==> compatible(
            QosProfile { deadline: Some(before), ..offered },
            asked,
        ),
        offered.lifespan == Some(before) ==> compatible(
            QosProfile { lifespan: Some(after), ..offered },
            asked,
        ),
{
}

/// Asking for less never breaks a match: not for less reliability, not for less
/// durability, not for a weaker liveliness, not for a longer deadline and not for a
/// shorter lifespan.
pub proof fn law_lowered_request_is_still_met(
    offered: QosProfile,
    asked: QosProfile,
    before: Duration,
    after: Duration,
)
    requires
        compatible(offered, asked),
        before.wf() && after.wf(),
        before.secs < after.secs || (before.secs == after.secs && before.nanos <= after.nanos),
    ensures
        compatible(offered, QosProfile { reliability: Reliability::BestEffort, ..asked }),
        compatible(offered, QosProfile { durability: Durability::Volatile, ..asked }),
        compatible(offered, QosProfile { liveliness: Liveliness::Automatic, ..asked }),
        asked.liveliness is ManualByParticipant ==> compatible(
            offered,
            QosProfile { liveliness: Liveliness::ManualByTopic, ..asked },
        ),
        asked.deadline == Some(before) ==> compatible(
            offered,
            QosProfile { deadline: Some(after), ..asked },
        ),
        asked.lifespan == Some(after) ==> compatible(
            offered,
            QosProfile { lifespan: Some(before), ..asked },
        ),
{
}

/// A span that one side leaves open decides nothing: leaving it open keeps a match.
pub proof fn law_open_span_decides_nothing(offered: QosProfile, asked: QosProfile)
    requires
        compatible(offered, asked),
    ensures
        compatible(QosProfile { deadline: None, ..offered }, asked),
        compatible(QosProfile { lifespan: None, ..offered }, asked),
        compatible(offered, QosProfile { deadline: None, ..asked }),
        compatible(offered, QosProfile { lifespan: None, ..asked }),
{
}

/// What is asked for and not offered breaks the match, whatever else the two agree on:
/// reliability, durability, liveliness, a deadline that the publisher keeps, and a
/// lifespan that lasts.
pub proof fn law_unmet_request_breaks_the_match(
    offered: QosProfile,
    asked: QosProfile,
    shorter: Duration,
    longer: Duration,
)
    requires
        shorter.wf() && longer.wf(),
        shorter.secs < longer.secs || (shorter.secs == longer.secs && shorter.nanos
            < longer.nanos),
    ensures
        offered.reliability is BestEffort && asked.reliability is Reliable ==> !compatible(
            offered,
            asked,
        ),
        offered.durability is Volatile && asked.durability is TransientLocal ==> !compatible(
            offered,
            asked,
        ),
        offered.liveliness is Automatic && asked.liveliness is ManualByTopic ==> !compatible(
            offered,
            asked,
        ),
        offered.liveliness !is ManualByParticipant && asked.liveliness is ManualByParticipant
            ==> !compatible(offered, asked),
        offered.deadline == Some(longer) && asked.deadline == Some(shorter) ==> !compatible(
            offered,
            asked,
        ),
        offered.lifespan == Some(shorter) && asked.lifespan == Some(longer) ==> !compatible(
            offered,
            asked,
        ),
{
}

/// A remote endpoint's profile keeps each policy under its own name, and a span of no
/// time is no span.
pub proof fn law_remote_policies_keep_their_place(rq: RemoteQos)
    ensures
        local_profile(rq).reliability == rq.reliability,
        local_profile(rq).durability == rq.durability,
        local_profile(rq).history == rq.history,
        local_profile(rq).liveliness == rq.liveliness,
        local_profile(rq).deadline is None <==> rq.deadline.secs == 0 && rq.deadline.nanos == 0,
        local_profile(rq).deadline is Some ==> local_profile(rq).deadline->0 == rq.deadline,
        local_profile(rq).lifespan is None <==> rq.lifespan.secs == 0 && rq.lifespan.nanos == 0,
        local_profile(rq).lifespan is Some ==> local_profile(rq).lifespan->0 == rq.lifespan,
        local_profile(rq).liveliness_lease_duration is None
            <==> rq.liveliness_lease_duration.secs == 0 && rq.liveliness_lease_duration.nanos == 0,
        local_profile(rq).liveliness_lease_duration is Some ==> local_profile(
            rq,
        ).liveliness_lease_duration->0 == rq.liveliness_lease_duration,
        local_profile(rq).bandwidth_limit is None,
        remote_profile(local_profile(rq)) == (RemoteQos {
            avoid_ros_namespace_conventions: false,
            ..rq
        }),
{
}

/// A plain profile has the reliability and the depth that are given, stores nothing for
/// late comers, sets no limit but that of 65536 bytes for a message, and no time.
pub proof fn law_plain_profile(reliability: Reliability, depth: usize)
    ensures
        ({
            let p = QosProfile::plain(reliability, depth);
            &&& p.reliability == reliability
            &&& p.history == (HistoryKind::KeepLast { depth })
            &&& p.durability is Volatile
            &&& p.max_message_size == 65_536
            &&& p.bandwidth_limit is None
            &&& p.deadline is None
            &&& p.lifespan is None
            &&& p.liveliness is Automatic
            &&& p.liveliness_lease_duration is None
        }),
{
}

/// An offer fails a request only for one of these reasons: it is less reliable or less
/// durable than asked, its deadline is longer or its lifespan shorter, or it shows less
/// often than asked that it is alive.
pub proof fn law_match_breaks_for_a_reason(offered: QosProfile, asked: QosProfile)
    requires
        !compatible(offered, asked),
    ensures
        ({
            ||| offered.reliability is BestEffort && asked.reliability is Reliable
            ||| offered.durability is Volatile && asked.durability is TransientLocal
            ||| offered.liveliness is Automatic && asked.liveliness is ManualByTopic
            ||| offered.liveliness !is ManualByParticipant && asked.liveliness
                is ManualByParticipant
            ||| (offered.deadline is Some && asked.deadline is Some && offered.deadline->0.secs
                * 1_000_000_000 + offered.deadline->0.nanos > asked.deadline->0.secs
                * 1_000_000_000 + asked.deadline->0.nanos)
            ||| (offered.lifespan is Some && asked.lifespan is Some && offered.lifespan->0.secs
                * 1_000_000_000 + offered.lifespan->0.nanos < asked.lifespan->0.secs
                * 1_000_000_000 + asked.lifespan->0.nanos)
        }),
{
}

} // verus!
