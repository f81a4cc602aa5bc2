//! Events that the middleware waits for: missed deadlines, lost liveliness and the
//! like. Times are in nanoseconds of a clock that never goes back.
use crate::duration::Duration;
use vstd::prelude::*;

verus! {

/// How often the monitors are checked, in milliseconds.
pub const MONITOR_INTERVAL_MS: u64 = 100;

/// The number of an event.
pub type EventHandle = u64;

/// The kind of an event.
#[derive(Debug, Clone, Copy, PartialEq, Eq, Structural)]
pub enum EventKind {
    /// A publisher has lost its liveliness.
    LivelinessLost,
    /// The liveliness of publishers has changed for a subscription.
    LivelinessChanged,
    /// A publisher has missed its deadline.
    DeadlineMissed,
    /// A subscription has lost a message.
    MessageLost,
    /// The qualities of service do not fit.
    RequestedQosCompatibility,
}

/// One event.
#[derive(Debug, Clone, Copy, PartialEq, Eq, Structural)]
pub struct EventState {
    pub handle: EventHandle,
    pub kind: EventKind,
    /// How often it has occurred since it was last taken.
    pub count: i64,
    pub alive_count: i64,
    pub not_alive_count: i64,
    pub last_triggered: u64,
}

/// A deadline that is watched.
#[derive(Debug, Clone, Copy, PartialEq, Eq, Structural)]
pub struct DeadlineMonitor {
    pub event_handle: EventHandle,
    pub topic_hash: u64,
    pub publisher_gid: u64,
    pub deadline: Duration,
    pub last: u64,
}

/// A lease that is watched.
#[derive(Debug, Clone, Copy, PartialEq, Eq, Structural)]
pub struct LivelinessMonitor {
    pub event_handle: EventHandle,
    pub node_id: u64,
    pub lease_duration: Duration,
    pub last: u64,
}

/// The events and what is watched for them.
pub struct EventMonitor {
    pub events: Vec<EventState>,
    pub next_handle: u64,
    pub deadline_monitors: Vec<DeadlineMonitor>,
    pub liveliness_monitors: Vec<LivelinessMonitor>,
}

/// What a monitor holds.
#[verifier::ext_equal]
pub struct MonitorView {
    pub events: Seq<EventState>,
    pub next_handle: u64,
    pub deadlines: Seq<DeadlineMonitor>,
    pub leases: Seq<LivelinessMonitor>,
}

impl View for EventMonitor {
    type V = MonitorView;

    open spec fn view(&self) -> MonitorView {
        MonitorView {
            events: self.events@,
            next_handle: self.next_handle,
            deadlines: self.deadline_monitors@,
            leases: self.liveliness_monitors@,
        }
    }
}

impl MonitorView {
    /// Whether the events stand in the order of their numbers, each number once.
    pub open spec fn wf(self) -> bool {
        &&& forall|i: int, j: int|
            0 <= i < j < self.events.len() ==> (#[trigger] self.events[i]).handle < (
            #[trigger] self.events[j]).handle
        &&& forall|i: int|
            0 <= i < self.events.len() ==> (#[trigger] self.events[i]).handle < self.next_handle
    }
}

/// One more, starting over behind the last.
pub open spec fn stepped(n: i64) -> i64 {
    if n == i64::MAX {
        i64::MIN
    } else {
        (n + 1) as i64
    }
}

fn step(n: i64) -> (r: i64)
    ensures
        r == stepped(n),
{
    if n == i64::MAX {
        i64::MIN
    } else {
        n + 1
    }
}

/// The events after one of them has occurred.
pub open spec fn triggered(events: Seq<EventState>, handle: EventHandle, now: u64) -> Seq<
    EventState,
> {
    Seq::new(
        events.len(),
        |i: int|
            if events[i].handle == handle {
                EventState {
                    count: stepped(events[i].count),
                    last_triggered: now,
                    ..events[i]
                }
            } else {
                events[i]
            },
    )
}

/// The events with the numbers of publishers that are alive and that are not set for
/// one of them.
pub open spec fn counted(
    events: Seq<EventState>,
    handle: EventHandle,
    alive: i64,
    not_alive: i64,
) -> Seq<EventState> {
    Seq::new(
        events.len(),
        |i: int|
            if events[i].handle == handle {
                EventState { alive_count: alive, not_alive_count: not_alive, ..events[i] }
            } else {
                events[i]
            },
    )
}

/// The events after some of them have occurred, one after the other.
pub open spec fn all_triggered(
    events: Seq<EventState>,
    handles: Seq<EventHandle>,
    now: u64,
) -> Seq<EventState>
    decreases handles.len(),
{
    if handles.len() == 0 {
        events
    } else {
        triggered(all_triggered(events, handles.drop_last(), now), handles.last(), now)
    }
}

/// The time since `last`; none where the clock was read out of order.
pub open spec fn elapsed(now: u64, last: u64) -> int {
    if now < last {
        0
    } else {
        now - last
    }
}

/// Whether more time has gone by than allowed.
pub open spec fn expired(now: u64, last: u64, limit: Duration) -> bool {
    elapsed(now, last) > limit.total()
}

fn is_expired(now: u64, last: u64, limit: Duration) -> (r: bool)
    ensures
        r == expired(now, last, limit),
{
    let gone: u64 = if now < last {
        0
    } else {
        now - last
    };
    let allowed: u128 = limit.secs as u128 * 1_000_000_000 + limit.nanos as u128;
    gone as u128 > allowed
}

/// The events of the deadlines that were missed.
pub open spec fn missed(deadlines: Seq<DeadlineMonitor>, now: u64) -> Seq<EventHandle>
    decreases deadlines.len(),
{
    if deadlines.len() == 0 {
        Seq::empty()
    } else if expired(now, deadlines.last().last, deadlines.last().deadline) {
        missed(deadlines.drop_last(), now).push(deadlines.last().event_handle)
    } else {
        missed(deadlines.drop_last(), now)
    }
}

/// The events of the leases that have run out.
pub open spec fn lapsed(leases: Seq<LivelinessMonitor>, now: u64) -> Seq<EventHandle>
    decreases leases.len(),
{
    if leases.len() == 0 {
        Seq::empty()
    } else if expired(now, leases.last().last, leases.last().lease_duration) {
        lapsed(leases.drop_last(), now).push(leases.last().event_handle)
    } else {
        lapsed(leases.drop_last(), now)
    }
}

/// The events after the numbers of publishers have changed: those that report such a
/// change and have other numbers occur.
pub open spec fn reported(events: Seq<EventState>, alive: i64, not_alive: i64, now: u64) -> Seq<
    EventState,
> {
    Seq::new(
        events.len(),
        |i: int|
            if events[i].kind == EventKind::LivelinessChanged && (events[i].alive_count != alive
                || events[i].not_alive_count != not_alive) {
                EventState {
                    alive_count: alive,
                    not_alive_count: not_alive,
                    count: stepped(events[i].count),
                    last_triggered: now,
                    ..events[i]
                }
            } else {
                events[i]
            },
    )
}

/// The place of an event.
pub open spec fn place_of(events: Seq<EventState>, handle: EventHandle) -> Option<int> {
    if exists|i: int| 0 <= i < events.len() && (#[trigger] events[i]).handle == handle {
        Some(choose|i: int| 0 <= i < events.len() && (#[trigger] events[i]).handle == handle)
    } else {
        None
    }
}

/// The deadlines with one more, in place of any for the same event, topic and
/// publisher.
pub open spec fn with_deadline(s: Seq<DeadlineMonitor>, m: DeadlineMonitor) -> Seq<
    DeadlineMonitor,
> {
    if exists|i: int| 0 <= i < s.len() && same_deadline(#[trigger] s[i], m) {
        Seq::new(
            s.len(),
            |i: int|
                if same_deadline(s[i], m) {
                    m
                } else {
                    s[i]
                },
        )
    } else {
        s.push(m)
    }
}

/// Whether two deadlines are for the same event, topic and publisher.
pub open spec fn same_deadline(a: DeadlineMonitor, b: DeadlineMonitor) -> bool {
    a.event_handle == b.event_handle && a.topic_hash == b.topic_hash && a.publisher_gid
        == b.publisher_gid
}

/// Whether two leases are for the same event and node.
pub open spec fn same_lease(a: LivelinessMonitor, b: LivelinessMonitor) -> bool {
    a.event_handle == b.event_handle && a.node_id == b.node_id
}

/// The leases with one more, in place of any for the same event and node.
pub open spec fn with_lease(s: Seq<LivelinessMonitor>, m: LivelinessMonitor) -> Seq<
    LivelinessMonitor,
> {
    if exists|i: int| 0 <= i < s.len() && same_lease(#[trigger] s[i], m) {
        Seq::new(
            s.len(),
            |i: int|
                if same_lease(s[i], m) {
                    m
                } else {
                    s[i]
                },
        )
    } else {
        s.push(m)
    }
}

/// The deadlines after something was published on a topic: by one publisher, or by
/// any where the publisher is zero.
pub open spec fn met(s: Seq<DeadlineMonitor>, topic_hash: u64, gid: u64, now: u64) -> Seq<
    DeadlineMonitor,
> {
    Seq::new(
        s.len(),
        |i: int|
            if s[i].topic_hash == topic_hash && (gid == 0 || s[i].publisher_gid == gid) {
                DeadlineMonitor { last: now, ..s[i] }
            } else {
                s[i]
            },
    )
}

/// The leases after a node has shown that it is alive.
pub open spec fn renewed(s: Seq<LivelinessMonitor>, node_id: u64, now: u64) -> Seq<
    LivelinessMonitor,
> {
    Seq::new(
        s.len(),
        |i: int|
            if s[i].node_id == node_id {
                LivelinessMonitor { last: now, ..s[i] }
            } else {
                s[i]
            },
    )
}

proof fn lemma_lapsed_fit(s: Seq<LivelinessMonitor>, now: u64)
    ensures
        lapsed(s, now).len() <= s.len(),
    decreases s.len(),
{
    if s.len() > 0 {
        lemma_lapsed_fit(s.drop_last(), now);
    }
}

proof fn lemma_triggered_wf(m: MonitorView, handle: EventHandle, now: u64)
    requires
        m.wf(),
    ensures
        (MonitorView { events: triggered(m.events, handle, now), ..m }).wf(),
{
    let t = triggered(m.events, handle, now);
    assert(forall|i: int| 0 <= i < t.len() ==> (#[trigger] t[i]).handle == m.events[i].handle);
}

impl EventMonitor {
    /// A monitor without events. Their numbers start at one.
    pub fn new() -> (r: EventMonitor)
        ensures
            r@.wf(),
            r@ == (MonitorView {
                events: Seq::empty(),
                next_handle: 1,
                deadlines: Seq::empty(),
                leases: Seq::empty(),
            }),
    {
        EventMonitor {
            events: Vec::new(),
            next_handle: 1,
            deadline_monitors: Vec::new(),
            liveliness_monitors: Vec::new(),
        }
    }

    /// The place of an event.
    fn position(&self, handle: EventHandle) -> (r: Option<usize>)
        ensures
            match r {
                Some(i) => i < self.events@.len() && self.events@[i as int].handle == handle,
                None => forall|i: int|
                    0 <= i < self.events@.len() ==> (#[trigger] self.events@[i]).handle != handle,
            },
    {
        let mut i: usize = 0;
        while i < self.events.len()
            invariant
                i <= self.events@.len(),
                forall|k: int| 0 <= k < i ==> (#[trigger] self.events@[k]).handle != handle,
            decreases self.events.len() - i,
        {
            if self.events[i].handle == handle {
                return Some(i);
            }
            i += 1;
        }
        None
    }

    /// Makes an event. Its number, which no event had before.
    pub fn create_event(&mut self, kind: EventKind, now: u64) -> (r: EventHandle)
        requires
            old(self)@.wf(),
            old(self)@.next_handle < u64::MAX,
        ensures
            final(self)@.wf(),
            r == old(self)@.next_handle,
            final(self)@ == (MonitorView {
                events: old(self)@.events.push(
                    EventState {
                        handle: r,
                        kind,
                        count: 0,
                        alive_count: 0,
                        not_alive_count: 0,
                        last_triggered: now,
                    },
                ),
                next_handle: (r + 1) as u64,
                ..old(self)@
            }),
    {
        let handle: u64 = self.next_handle;
        self.next_handle = handle + 1;
        self.events.push(
            EventState {
                handle,
                kind,
                count: 0,
                alive_count: 0,
                not_alive_count: 0,
                last_triggered: now,
            },
        );
        handle
    }

    /// Takes an event: how often it has occurred since it was last taken, when it last
    /// did, and how many publishers are alive and are not. Nothing where it has not
    /// occurred.
    pub fn take_event(&mut self, handle: EventHandle) -> (r: Option<(i64, u64, i64, i64)>)
        requires
            old(self)@.wf(),
        ensures
            final(self)@.wf(),
            match place_of(old(self)@.events, handle) {
                None => r is None && final(self)@ == old(self)@,
                Some(i) => {
                    let e = old(self)@.events[i];
                    if e.count > 0 {
                        r == Some((e.count, e.last_triggered, e.alive_count, e.not_alive_count))
                            && final(self)@ == (MonitorView {
                            events: old(self)@.events.update(i, EventState { count: 0, ..e }),
                            ..old(self)@
                        })
                    } else {
                        r is None && final(self)@ == old(self)@
                    }
                },
            },
    {
        match self.position(handle) {
            Some(i) => {
                let e = self.events[i];
                proof {
                    let p = place_of(self@.events, handle)->0;
                    assert(self@.events[i as int].handle == handle);
                    assert(self@.events[p].handle == handle);
                    assert(p == i);
                }
                if e.count > 0 {
                    self.events[i].count = 0;
                    proof {
                        assert(self@.events =~= old(self)@.events.update(
                            i as int,
                            EventState { count: 0, ..e },
                        ));
                    }
                    Some((e.count, e.last_triggered, e.alive_count, e.not_alive_count))
                } else {
                    None
                }
            },
            None => None,
        }
    }

    /// Drops an event.
    pub fn destroy_event(&mut self, handle: EventHandle)
        requires
            old(self)@.wf(),
        ensures
            final(self)@.wf(),
            final(self)@ == (match place_of(old(self)@.events, handle) {
                None => old(self)@,
                Some(i) => MonitorView { events: old(self)@.events.remove(i), ..old(self)@ },
            }),
    {
        match self.position(handle) {
            Some(i) => {
                proof {
                    let p = place_of(self@.events, handle)->0;
                    assert(self@.events[i as int].handle == handle);
                    assert(self@.events[p].handle == handle);
                    assert(p == i);
                }
                self.events.remove(i);
            },
            None => {},
        }
    }

    /// Notes that an event has occurred.
    pub fn trigger_event(&mut self, handle: EventHandle, now: u64)
        requires
            old(self)@.wf(),
        ensures
            final(self)@.wf(),
            final(self)@ == (MonitorView {
                events: triggered(old(self)@.events, handle, now),
                ..old(self)@
            }),
    {
        let ghost es = self@.events;
        match self.position(handle) {
            Some(i) => {
                let n: i64 = step(self.events[i].count);
                self.events[i].count = n;
                self.events[i].last_triggered = now;
                proof {
                    assert forall|k: int| 0 <= k < es.len() && k != i implies (
                    #[trigger] es[k]).handle != handle by {
                        if k < i {
                            assert(es[k].handle < es[i as int].handle);
                        } else {
                            assert(es[i as int].handle < es[k].handle);
                        }
                    }
                    assert(self@.events =~= triggered(es, handle, now));
                }
            },
            None => {
                proof {
                    assert(self@.events =~= triggered(es, handle, now));
                }
            },
        }
        proof {
            lemma_triggered_wf(old(self)@, handle, now);
        }
    }

    /// Sets the numbers of publishers that are alive and that are not, for an event
    /// that reports their change.
    pub fn update_liveliness_counts(&mut self, handle: EventHandle, alive: i64, not_alive: i64)
        requires
            old(self)@.wf(),
        ensures
            final(self)@.wf(),
            final(self)@ == (MonitorView {
                events: counted(old(self)@.events, handle, alive, not_alive),
                ..old(self)@
            }),
    {
        let ghost es = self@.events;
        match self.position(handle) {
            Some(i) => {
                self.events[i].alive_count = alive;
                self.events[i].not_alive_count = not_alive;
                proof {
                    assert forall|k: int| 0 <= k < es.len() && k != i implies (
                    #[trigger] es[k]).handle != handle by {
                        if k < i {
                            assert(es[k].handle < es[i as int].handle);
                        } else {
                            assert(es[i as int].handle < es[k].handle);
                        }
                    }
                    assert(self@.events =~= counted(es, handle, alive, not_alive));
                }
            },
            None => {
                proof {
                    assert(self@.events =~= counted(es, handle, alive, not_alive));
                }
            },
        }
        proof {
            let t = self@.events;
            assert(forall|i: int| 0 <= i < t.len() ==> (#[trigger] t[i]).handle == es[i].handle);
        }
    }

    /// Notes that the liveliness of publishers has changed: sets the numbers, and the
    /// event occurs.
    pub fn trigger_liveliness_changed(
        &mut self,
        handle: EventHandle,
        alive: i64,
        not_alive: i64,
        now: u64,
    )
        requires
            old(self)@.wf(),
        ensures
            final(self)@.wf(),
            final(self)@ == (MonitorView {
                events: triggered(
                    counted(old(self)@.events, handle, alive, not_alive),
                    handle,
                    now,
                ),
                ..old(self)@
            }),
    {
        self.update_liveliness_counts(handle, alive, not_alive);
        self.trigger_event(handle, now);
    }

    /// Watches the deadline of a publisher on a topic.
    pub fn register_deadline_monitor(
        &mut self,
        event_handle: EventHandle,
        topic_hash: u64,
        publisher_gid: u64,
        deadline: Duration,
        now: u64,
    )
        requires
            old(self)@.wf(),
        ensures
            final(self)@.wf(),
            final(self)@ == (MonitorView {
                deadlines: with_deadline(
                    old(self)@.deadlines,
                    DeadlineMonitor {
                        event_handle,
                        topic_hash,
                        publisher_gid,
                        deadline,
                        last: now,
                    },
                ),
                ..old(self)@
            }),
    {
        let m = DeadlineMonitor { event_handle, topic_hash, publisher_gid, deadline, last: now };
        let ghost s = self.deadline_monitors@;
        let mut found = false;
        let mut i: usize = 0;
        while i < self.deadline_monitors.len()
            invariant
                i <= self.deadline_monitors@.len() == s.len(),
                *self == (EventMonitor { deadline_monitors: self.deadline_monitors, ..*old(self) }),
                m == (DeadlineMonitor {
                    event_handle,
                    topic_hash,
                    publisher_gid,
                    deadline,
                    last: now,
                }),
                found == exists|k: int| 0 <= k < i && same_deadline(#[trigger] s[k], m),
                forall|k: int|
                    0 <= k < i ==> (#[trigger] self.deadline_monitors@[k]) == (if same_deadline(
                        s[k],
                        m,
                    ) {
                        m
                    } else {
                        s[k]
                    }),
                forall|k: int| i <= k < s.len() ==> (#[trigger] self.deadline_monitors@[k]) == s[k],
            decreases self.deadline_monitors.len() - i,
        {
            let x = self.deadline_monitors[i];
            if x.event_handle == event_handle && x.topic_hash == topic_hash && x.publisher_gid
                == publisher_gid {
                self.deadline_monitors.set(i, m);
                found = true;
                proof {
                    assert(same_deadline(s[i as int], m));
                }
            }
            i += 1;
        }
        if !found {
            proof {
                assert(self.deadline_monitors@ =~= s);
            }
            self.deadline_monitors.push(m);
        } else {
            proof {
                assert(self.deadline_monitors@ =~= with_deadline(s, m));
            }
        }
    }

    /// Notes that something was published on a topic, by one publisher or, where the
    /// publisher is zero, by any.
    pub fn update_deadline_publish_time(&mut self, topic_hash: u64, publisher_gid: u64, now: u64)
        requires
            old(self)@.wf(),
        ensures
            final(self)@.wf(),
            final(self)@ == (MonitorView {
                deadlines: met(old(self)@.deadlines, topic_hash, publisher_gid, now),
                ..old(self)@
            }),
    {
        let ghost s = self.deadline_monitors@;
        let mut i: usize = 0;
        while i < self.deadline_monitors.len()
            invariant
                i <= self.deadline_monitors@.len() == s.len(),
                *self == (EventMonitor { deadline_monitors: self.deadline_monitors, ..*old(self) }),
                forall|k: int|
                    0 <= k < i ==> (#[trigger] self.deadline_monitors@[k]) == met(
                        s,
                        topic_hash,
                        publisher_gid,
                        now,
                    )[k],
                forall|k: int| i <= k < s.len() ==> (#[trigger] self.deadline_monitors@[k]) == s[k],
            decreases self.deadline_monitors.len() - i,
        {
            let x = self.deadline_monitors[i];
            if x.topic_hash == topic_hash && (publisher_gid == 0 || x.publisher_gid
                == publisher_gid) {
                self.deadline_monitors[i].last = now;
            }
            i += 1;
        }
        proof {
            assert(self.deadline_monitors@ =~= met(s, topic_hash, publisher_gid, now));
        }
    }

    /// Triggers events, one after the other.
    fn trigger_all(&mut self, handles: &Vec<EventHandle>, now: u64)
        requires
            old(self)@.wf(),
        ensures
            final(self)@.wf(),
            final(self)@ == (MonitorView {
                events: all_triggered(old(self)@.events, handles@, now),
                ..old(self)@
            }),
    {
        let mut i: usize = 0;
        proof {
            assert(handles@.subrange(0, 0) =~= Seq::empty());
        }
        while i < handles.len()
            invariant
                i <= handles@.len(),
                self@.wf(),
                self@ == (MonitorView {
                    events: all_triggered(
                        old(self)@.events,
                        handles@.subrange(0, i as int),
                        now,
                    ),
                    ..old(self)@
                }),
            decreases handles.len() - i,
        {
            proof {
                assert(handles@.subrange(0, i + 1).drop_last() =~= handles@.subrange(0, i as int));
            }
            self.trigger_event(handles[i], now);
            i += 1;
        }
        proof {
            assert(handles@.subrange(0, i as int) =~= handles@);
        }
    }

    /// Checks the deadlines: the events of those that were missed occur.
    pub fn check_deadlines(&mut self, now: u64)
        requires
            old(self)@.wf(),
        ensures
            final(self)@.wf(),
            final(self)@ == (MonitorView {
                events: all_triggered(
                    old(self)@.events,
                    missed(old(self)@.deadlines, now),
                    now,
                ),
                ..old(self)@
            }),
    {
        let ghost s = self.deadline_monitors@;
        let mut handles: Vec<EventHandle> = Vec::new();
        let mut i: usize = 0;
        proof {
            assert(s.subrange(0, 0) =~= Seq::empty());
        }
        while i < self.deadline_monitors.len()
            invariant
                i <= s.len(),
                s == self.deadline_monitors@,
                handles@ == missed(s.subrange(0, i as int), now),
            decreases self.deadline_monitors.len() - i,
        {
            proof {
                assert(s.subrange(0, i + 1).drop_last() =~= s.subrange(0, i as int));
            }
            let x = self.deadline_monitors[i];
            if is_expired(now, x.last, x.deadline) {
                handles.push(x.event_handle);
            }
            i += 1;
        }
        proof {
            assert(s.subrange(0, i as int) =~= s);
        }
        self.trigger_all(&handles, now);
    }

    /// Watches the lease of a node.
    pub fn register_liveliness_monitor(
        &mut self,
        event_handle: EventHandle,
        node_id: u64,
        lease_duration: Duration,
        now: u64,
    )
        requires
            old(self)@.wf(),
        ensures
            final(self)@.wf(),
            final(self)@ == (MonitorView {
                leases: with_lease(
                    old(self)@.leases,
                    LivelinessMonitor { event_handle, node_id, lease_duration, last: now },
                ),
                ..old(self)@
            }),
    {
        let m = LivelinessMonitor { event_handle, node_id, lease_duration, last: now };
        let ghost s = self.liveliness_monitors@;
        let mut found = false;
        let mut i: usize = 0;
        while i < self.liveliness_monitors.len()
            invariant
                i <= self.liveliness_monitors@.len() == s.len(),
                *self == (EventMonitor {
                    liveliness_monitors: self.liveliness_monitors,
                    ..*old(self)
                }),
                m == (LivelinessMonitor { event_handle, node_id, lease_duration, last: now }),
                found == exists|k: int| 0 <= k < i && same_lease(#[trigger] s[k], m),
                forall|k: int|
                    0 <= k < i ==> (#[trigger] self.liveliness_monitors@[k]) == (if same_lease(
                        s[k],
                        m,
                    ) {
                        m
                    } else {
                        s[k]
                    }),
                forall|k: int|
                    i <= k < s.len() ==> (#[trigger] self.liveliness_monitors@[k]) == s[k],
            decreases self.liveliness_monitors.len() - i,
        {
            let x = self.liveliness_monitors[i];
            if x.event_handle == event_handle && x.node_id == node_id {
                self.liveliness_monitors.set(i, m);
                found = true;
                proof {
                    assert(same_lease(s[i as int], m));
                }
            }
            i += 1;
        }
        if !found {
            proof {
                assert(self.liveliness_monitors@ =~= s);
            }
            self.liveliness_monitors.push(m);
        } else {
            proof {
                assert(self.liveliness_monitors@ =~= with_lease(s, m));
            }
        }
    }

    /// Notes that a node has shown that it is alive.
    pub fn assert_liveliness(&mut self, node_id: u64, now: u64)
        requires
            old(self)@.wf(),
        ensures
            final(self)@.wf(),
            final(self)@ == (MonitorView {
                leases: renewed(old(self)@.leases, node_id, now),
                ..old(self)@
            }),
    {
        let ghost s = self.liveliness_monitors@;
        let mut i: usize = 0;
        while i < self.liveliness_monitors.len()
            invariant
                i <= self.liveliness_monitors@.len() == s.len(),
                *self == (EventMonitor {
                    liveliness_monitors: self.liveliness_monitors,
                    ..*old(self)
                }),
                forall|k: int|
                    0 <= k < i ==> (#[trigger] self.liveliness_monitors@[k]) == renewed(
                        s,
                        node_id,
                        now,
                    )[k],
                forall|k: int|
                    i <= k < s.len() ==> (#[trigger] self.liveliness_monitors@[k]) == s[k],
            decreases self.liveliness_monitors.len() - i,
        {
            if self.liveliness_monitors[i].node_id == node_id {
                self.liveliness_monitors[i].last = now;
            }
            i += 1;
        }
        proof {
            assert(self.liveliness_monitors@ =~= renewed(s, node_id, now));
        }
    }

    /// Checks the leases: the events of those that have run out occur, and so do the
    /// events that report a change of how many publishers are alive, where that number
    /// has changed.
    pub fn check_liveliness(&mut self, now: u64)
        requires
            old(self)@.wf(),
            old(self)@.leases.len() <= i64::MAX,
        ensures
            final(self)@.wf(),
            final(self)@ == ({
                let lost = lapsed(old(self)@.leases, now);
                MonitorView {
                    events: reported(
                        all_triggered(old(self)@.events, lost, now),
                        (old(self)@.leases.len() - lost.len()) as i64,
                        lost.len() as i64,
                        now,
                    ),
                    ..old(self)@
                }
            }),
    {
        let ghost s = self.liveliness_monitors@;
        let mut handles: Vec<EventHandle> = Vec::new();
        let mut i: usize = 0;
        proof {
            assert(s.subrange(0, 0) =~= Seq::empty());
        }
        while i < self.liveliness_monitors.len()
            invariant
                i <= s.len(),
                s == self.liveliness_monitors@,
                handles@ == lapsed(s.subrange(0, i as int), now),
            decreases self.liveliness_monitors.len() - i,
        {
            proof {
                assert(s.subrange(0, i + 1).drop_last() =~= s.subrange(0, i as int));
            }
            let x = self.liveliness_monitors[i];
            if is_expired(now, x.last, x.lease_duration) {
                handles.push(x.event_handle);
            }
            i += 1;
        }
        proof {
            assert(s.subrange(0, i as int) =~= s);
            lemma_lapsed_fit(s, now);
        }
        let total: i64 = self.liveliness_monitors.len() as i64;
        let not_alive: i64 = handles.len() as i64;
        let alive: i64 = total - not_alive;
        self.trigger_all(&handles, now);
        let ghost es = self.events@;
        let ghost mid = *self;
        let mut k: usize = 0;
        while k < self.events.len()
            invariant
                k <= self.events@.len() == es.len(),
                *self == (EventMonitor { events: self.events, ..mid }),
                forall|j: int|
                    0 <= j < k ==> (#[trigger] self.events@[j]) == reported(
                        es,
                        alive,
                        not_alive,
                        now,
                    )[j],
                forall|j: int| k <= j < es.len() ==> (#[trigger] self.events@[j]) == es[j],
            decreases self.events.len() - k,
        {
            let e = self.events[k];
            if e.kind == EventKind::LivelinessChanged && (e.alive_count != alive
                || e.not_alive_count != not_alive) {
                let n: i64 = step(e.count);
                self.events.set(
                    k,
                    EventState {
                        alive_count: alive,
                        not_alive_count: not_alive,
                        count: n,
                        last_triggered: now,
                        ..e
                    },
                );
            }
            k += 1;
        }
        proof {
            let t = self.events@;
            assert(t =~= reported(es, alive, not_alive, now));
            assert(forall|i: int| 0 <= i < t.len() ==> (#[trigger] t[i]).handle == es[i].handle);
        }
    }
}

/// The events after one of them has occurred `n` times.
pub open spec fn triggered_times(
    events: Seq<EventState>,
    handle: EventHandle,
    now: u64,
    n: nat,
) -> Seq<EventState>
    decreases n,
{
    if n == 0 {
        events
    } else {
        triggered(triggered_times(events, handle, now, (n - 1) as nat), handle, now)
    }
}

/// An event that has occurred some number of times since it was taken is taken with
/// that number.
pub proof fn law_occurrences_are_counted(
    events: Seq<EventState>,
    i: int,
    now: u64,
    n: nat,
)
    requires
        0 <= i < events.len(),
        events[i].count + n <= i64::MAX,
    ensures
        triggered_times(events, events[i].handle, now, n).len() == events.len(),
        triggered_times(events, events[i].handle, now, n)[i] == (EventState {
            count: (events[i].count + n) as i64,
            last_triggered: if n == 0 {
                events[i].last_triggered
            } else {
                now
            },
            ..events[i]
        }),
    decreases n,
{
    if n > 0 {
        law_occurrences_are_counted(events, i, now, (n - 1) as nat);
    }
}

/// A publisher that has published within its deadline has not missed it.
pub proof fn law_met_deadline_is_not_missed(m: DeadlineMonitor, published: u64, now: u64)
    requires
        published <= now,
        now - published <= m.deadline.total(),
    ensures
        missed(met(seq![m], m.topic_hash, m.publisher_gid, published), now).len() == 0,
{
    let s = met(seq![m], m.topic_hash, m.publisher_gid, published);
    assert(s =~= seq![DeadlineMonitor { last: published, ..m }]);
    assert(s.drop_last() =~= Seq::empty());
    reveal_with_fuel(missed, 2);
}

/// A publication is noted for its own publisher alone: what is watched for another
/// publisher or on another topic stays as it is, and what is watched for the publisher
/// on the topic starts over. A publisher of number zero stands for any.
pub proof fn law_publication_is_its_publishers_own(
    s: Seq<DeadlineMonitor>,
    i: int,
    topic_hash: u64,
    gid: u64,
    now: u64,
)
    requires
        0 <= i < s.len(),
    ensures
        met(s, topic_hash, gid, now).len() == s.len(),
        s[i].topic_hash != topic_hash ==> met(s, topic_hash, gid, now)[i] == s[i],
        gid != 0 && s[i].publisher_gid != gid ==> met(s, topic_hash, gid, now)[i] == s[i],
        s[i].topic_hash == topic_hash && s[i].publisher_gid == gid ==> met(
            s,
            topic_hash,
            gid,
            now,
        )[i] == (DeadlineMonitor { last: now, ..s[i] }),
        s[i].topic_hash == topic_hash && gid == 0 ==> met(s, topic_hash, gid, now)[i] == (
        DeadlineMonitor { last: now, ..s[i] }),
{
}

/// An event is among those of missed deadlines exactly if one of its deadlines has gone
/// by with more than the allowed time since the last publication.
pub proof fn law_missed_exactly(s: Seq<DeadlineMonitor>, now: u64, handle: EventHandle)
    ensures
        missed(s, now).contains(handle) <==> exists|i: int|
            0 <= i < s.len() && (#[trigger] s[i]).event_handle == handle && now
                > s[i].last + s[i].deadline.secs * 1_000_000_000 + s[i].deadline.nanos,
    decreases s.len(),
{
    if s.len() > 0 {
        let init = s.drop_last();
        let m = s.last();
        let rest = missed(init, now);
        let all = missed(s, now);
        law_missed_exactly(init, now, handle);
        if all.contains(handle) {
            let k = choose|k: int| 0 <= k < all.len() && all[k] == handle;
            if k < rest.len() {
                assert(rest[k] == handle);
                let i = choose|i: int|
                    0 <= i < init.len() && (#[trigger] init[i]).event_handle == handle && now
                        > init[i].last + init[i].deadline.secs * 1_000_000_000
                        + init[i].deadline.nanos;
                assert(s[i] == init[i]);
            } else {
                assert(s[s.len() - 1].event_handle == handle);
            }
        }
        if exists|i: int|
            0 <= i < s.len() && (#[trigger] s[i]).event_handle == handle && now > s[i].last
                + s[i].deadline.secs * 1_000_000_000 + s[i].deadline.nanos {
            let i = choose|i: int|
                0 <= i < s.len() && (#[trigger] s[i]).event_handle == handle && now > s[i].last
                    + s[i].deadline.secs * 1_000_000_000 + s[i].deadline.nanos;
            if i < s.len() - 1 {
                assert(init[i] == s[i]);
                let k = choose|k: int| 0 <= k < rest.len() && rest[k] == handle;
                assert(all[k] == handle);
            } else {
                assert(all[rest.len() as int] == handle);
            }
        }
    }
}

/// A publisher that has not published within its deadline has its event among the
/// missed ones, whatever other publishers publish, and on whatever topics.
pub proof fn law_others_do_not_meet_a_deadline(
    s: Seq<DeadlineMonitor>,
    i: int,
    topic_hash: u64,
    gid: u64,
    published: u64,
    now: u64,
)
    requires
        0 <= i < s.len(),
        s[i].topic_hash != topic_hash || (gid != 0 && s[i].publisher_gid != gid),
        now > s[i].last + s[i].deadline.secs * 1_000_000_000 + s[i].deadline.nanos,
    ensures
        missed(met(s, topic_hash, gid, published), now).contains(s[i].event_handle),
{
    let t = met(s, topic_hash, gid, published);
    law_publication_is_its_publishers_own(s, i, topic_hash, gid, published);
    law_missed_exactly(t, now, s[i].event_handle);
    assert(t[i] == s[i]);
}

/// A node that shows that it is alive renews its own leases and no others.
pub proof fn law_renewal_is_the_nodes_own(
    s: Seq<LivelinessMonitor>,
    i: int,
    node_id: u64,
    now: u64,
)
    requires
        0 <= i < s.len(),
    ensures
        renewed(s, node_id, now).len() == s.len(),
        s[i].node_id != node_id ==> renewed(s, node_id, now)[i] == s[i],
        s[i].node_id == node_id ==> renewed(s, node_id, now)[i] == (LivelinessMonitor {
            last: now,
            ..s[i]
        }),
{
}

/// An event is among those of lapsed leases exactly if one of its leases has gone by
/// with more than its time since the node last showed that it was alive.
pub proof fn law_lapsed_exactly(s: Seq<LivelinessMonitor>, now: u64, handle: EventHandle)
    ensures
        lapsed(s, now).contains(handle) <==> exists|i: int|
            0 <= i < s.len() && (#[trigger] s[i]).event_handle == handle && now
                > s[i].last + s[i].lease_duration.secs * 1_000_000_000
                + s[i].lease_duration.nanos,
    decreases s.len(),
{
    if s.len() > 0 {
        let init = s.drop_last();
        let m = s.last();
        let rest = lapsed(init, now);
        let all = lapsed(s, now);
        law_lapsed_exactly(init, now, handle);
        if all.contains(handle) {
            let k = choose|k: int| 0 <= k < all.len() && all[k] == handle;
            if k < rest.len() {
                assert(rest[k] == handle);
                let i = choose|i: int|
                    0 <= i < init.len() && (#[trigger] init[i]).event_handle == handle && now
                        > init[i].last + init[i].lease_duration.secs * 1_000_000_000
                        + init[i].lease_duration.nanos;
                assert(s[i] == init[i]);
            } else {
                assert(s[s.len() - 1].event_handle == handle);
            }
        }
        if exists|i: int|
            0 <= i < s.len() && (#[trigger] s[i]).event_handle == handle && now > s[i].last
                + s[i].lease_duration.secs * 1_000_000_000 + s[i].lease_duration.nanos {
            let i = choose|i: int|
                0 <= i < s.len() && (#[trigger] s[i]).event_handle == handle && now > s[i].last
                    + s[i].lease_duration.secs * 1_000_000_000 + s[i].lease_duration.nanos;
            if i < s.len() - 1 {
                assert(init[i] == s[i]);
                let k = choose|k: int| 0 <= k < rest.len() && rest[k] == handle;
                assert(all[k] == handle);
            } else {
                assert(all[rest.len() as int] == handle);
            }
        }
    }
}

/// A node that is alive keeps its leases: none of them has lapsed until its time has
/// gone by again, and the leases of silent nodes lapse all the same.
pub proof fn law_silent_nodes_lapse(
    s: Seq<LivelinessMonitor>,
    i: int,
    node_id: u64,
    shown: u64,
    now: u64,
)
    requires
        0 <= i < s.len(),
        s[i].node_id != node_id,
        now > s[i].last + s[i].lease_duration.secs * 1_000_000_000 + s[i].lease_duration.nanos,
    ensures
        lapsed(renewed(s, node_id, shown), now).contains(s[i].event_handle),
{
    let t = renewed(s, node_id, shown);
    law_lapsed_exactly(t, now, s[i].event_handle);
    assert(t[i] == s[i]);
}

/// Watching a deadline keeps what is watched for other events, topics and publishers,
/// starts the clock of the new one, and watches nothing twice.
pub proof fn law_watched_deadlines_stay_apart(s: Seq<DeadlineMonitor>, m: DeadlineMonitor)
    ensures
        with_deadline(s, m).contains(m),
        with_deadline(with_deadline(s, m), m) == with_deadline(s, m),
        s.len() <= with_deadline(s, m).len() <= s.len() + 1,
        forall|i: int|
            0 <= i < s.len() && (s[i].event_handle != m.event_handle || s[i].topic_hash
                != m.topic_hash || s[i].publisher_gid != m.publisher_gid) ==> with_deadline(s, m)[i]
                == #[trigger] s[i],
        forall|i: int|
            0 <= i < s.len() && s[i].event_handle == m.event_handle && s[i].topic_hash
                == m.topic_hash && s[i].publisher_gid == m.publisher_gid ==> with_deadline(s, m)[i]
                == m && with_deadline(s, m).len() == s.len() && #[trigger] s[i] == s[i],
{
    let t = with_deadline(s, m);
    if exists|i: int| 0 <= i < s.len() && same_deadline(#[trigger] s[i], m) {
        let i = choose|i: int| 0 <= i < s.len() && same_deadline(#[trigger] s[i], m);
        assert(t[i] == m);
        assert(same_deadline(t[i], m));
    } else {
        assert(t[s.len() as int] == m);
        assert(same_deadline(t[s.len() as int], m));
        assert forall|i: int| 0 <= i < s.len() implies !same_deadline(t[i], m) by {
            assert(t[i] == s[i]);
        }
    }
    assert(with_deadline(t, m) =~= t);
}

/// Watching a lease keeps what is watched for other events and nodes, starts the clock
/// of the new one, and watches nothing twice.
pub proof fn law_watched_leases_stay_apart(s: Seq<LivelinessMonitor>, m: LivelinessMonitor)
    ensures
        with_lease(s, m).contains(m),
        with_lease(with_lease(s, m), m) == with_lease(s, m),
        s.len() <= with_lease(s, m).len() <= s.len() + 1,
        forall|i: int|
            0 <= i < s.len() && (s[i].event_handle != m.event_handle || s[i].node_id != m.node_id)
                ==> with_lease(s, m)[i] == #[trigger] s[i],
        forall|i: int|
            0 <= i < s.len() && s[i].event_handle == m.event_handle && s[i].node_id == m.node_id
                ==> with_lease(s, m)[i] == m && with_lease(s, m).len() == s.len() && #[trigger] s[i]
                == s[i],
{
    let t = with_lease(s, m);
    if exists|i: int| 0 <= i < s.len() && same_lease(#[trigger] s[i], m) {
        let i = choose|i: int| 0 <= i < s.len() && same_lease(#[trigger] s[i], m);
        assert(t[i] == m);
        assert(same_lease(t[i], m));
    } else {
        assert(t[s.len() as int] == m);
        assert(same_lease(t[s.len() as int], m));
        assert forall|i: int| 0 <= i < s.len() implies !same_lease(t[i], m) by {
            assert(t[i] == s[i]);
        }
    }
    assert(with_lease(t, m) =~= t);
}

/// An event that occurs is counted once and leaves every other event alone.
pub proof fn law_event_occurs_alone(
    events: Seq<EventState>,
    i: int,
    handle: EventHandle,
    now: u64,
)
    requires
        0 <= i < events.len(),
        events[i].count < i64::MAX,
    ensures
        triggered(events, handle, now).len() == events.len(),
        events[i].handle != handle ==> triggered(events, handle, now)[i] == events[i],
        events[i].handle == handle ==> triggered(events, handle, now)[i].count == events[i].count
            + 1 && triggered(events, handle, now)[i].last_triggered == now,
{
}

/// An event occurs on a check exactly if it is among those that are due: all others keep
/// their count.
pub proof fn law_only_due_events_occur(
    events: Seq<EventState>,
    due: Seq<EventHandle>,
    i: int,
    now: u64,
)
    requires
        0 <= i < events.len(),
        events[i].count + due.len() <= i64::MAX,
    ensures
        all_triggered(events, due, now).len() == events.len(),
        all_triggered(events, due, now)[i].handle == events[i].handle,
        all_triggered(events, due, now)[i].kind == events[i].kind,
        all_triggered(events, due, now)[i].alive_count == events[i].alive_count,
        all_triggered(events, due, now)[i].not_alive_count == events[i].not_alive_count,
        events[i].count <= all_triggered(events, due, now)[i].count <= events[i].count + due.len(),
        all_triggered(events, due, now)[i].count > events[i].count <==> due.contains(
            events[i].handle,
        ),
        !due.contains(events[i].handle) ==> all_triggered(events, due, now)[i] == events[i],
        due.contains(events[i].handle) ==> all_triggered(events, due, now)[i].last_triggered == now,
    decreases due.len(),
{
    if due.len() > 0 {
        let init = due.drop_last();
        law_only_due_events_occur(events, init, i, now);
        if init.contains(events[i].handle) {
            let k = choose|k: int| 0 <= k < init.len() && init[k] == events[i].handle;
            assert(due[k] == events[i].handle);
        }
        if due.last() == events[i].handle {
            assert(due[due.len() - 1] == events[i].handle);
        } else if due.contains(events[i].handle) {
            let k = choose|k: int| 0 <= k < due.len() && due[k] == events[i].handle;
            assert(init[k] == events[i].handle);
        }
    }
}

/// A change of how many publishers are alive is reported to the events that wait for
/// it, and to no others; without a change nothing occurs.
pub proof fn law_change_is_reported_once(
    events: Seq<EventState>,
    i: int,
    alive: i64,
    not_alive: i64,
    now: u64,
)
    requires
        0 <= i < events.len(),
        events[i].count < i64::MAX,
    ensures
        reported(events, alive, not_alive, now).len() == events.len(),
        events[i].kind !is LivelinessChanged ==> reported(events, alive, not_alive, now)[i]
            == events[i],
        events[i].kind is LivelinessChanged ==> reported(events, alive, not_alive, now)[i].alive_count
            == alive && reported(events, alive, not_alive, now)[i].not_alive_count == not_alive,
        events[i].kind is LivelinessChanged && (events[i].alive_count != alive
            || events[i].not_alive_count != not_alive) ==> reported(
            events,
            alive,
            not_alive,
            now,
        )[i].count == events[i].count + 1,
        reported(reported(events, alive, not_alive, now), alive, not_alive, now) == reported(
            events,
            alive,
            not_alive,
            now,
        ),
{
    assert(reported(reported(events, alive, not_alive, now), alive, not_alive, now) =~= reported(
        events,
        alive,
        not_alive,
        now,
    ));
}

/// An event that is there is found under its number, and no other is.
pub proof fn law_event_is_found(m: MonitorView, i: int)
    requires
        m.wf(),
        0 <= i < m.events.len(),
    ensures
        place_of(m.events, m.events[i].handle) == Some(i),
{
    let p = place_of(m.events, m.events[i].handle)->0;
    assert(m.events[i].handle == m.events[i].handle);
    assert(m.events[p].handle == m.events[i].handle);
    if p < i {
        assert(m.events[p].handle < m.events[i].handle);
    }
    if i < p {
        assert(m.events[i].handle < m.events[p].handle);
    }
}

/// Each lease counts once: one more lease that has run out is one more lapsed, and one
/// that has not changes nothing.
pub proof fn law_each_lease_counts_once(s: Seq<LivelinessMonitor>, m: LivelinessMonitor, now: u64)
    ensures
        lapsed(s.push(m), now).len() == lapsed(s, now).len() + (if now > m.last
            + m.lease_duration.secs * 1_000_000_000 + m.lease_duration.nanos {
            1nat
        } else {
            0nat
        }),
        lapsed(Seq::empty(), now).len() == 0,
{
    assert(s.push(m).drop_last() =~= s);
}

/// Setting the numbers of publishers of one event leaves every other event alone, and
/// lets nothing occur.
pub proof fn law_numbers_are_set_for_one(
    events: Seq<EventState>,
    i: int,
    handle: EventHandle,
    alive: i64,
    not_alive: i64,
)
    requires
        0 <= i < events.len(),
    ensures
        counted(events, handle, alive, not_alive).len() == events.len(),
        events[i].handle != handle ==> counted(events, handle, alive, not_alive)[i] == events[i],
        events[i].handle == handle ==> counted(events, handle, alive, not_alive)[i].alive_count
            == alive && counted(events, handle, alive, not_alive)[i].not_alive_count == not_alive,
        counted(events, handle, alive, not_alive)[i].count == events[i].count,
        counted(events, handle, alive, not_alive)[i].last_triggered == events[i].last_triggered,
{
}

/// Each missed deadline counts once, in the order in which the deadlines are watched.
pub proof fn law_each_deadline_counts_once(s: Seq<DeadlineMonitor>, m: DeadlineMonitor, now: u64)
    ensures
        now > m.last + m.deadline.secs * 1_000_000_000 + m.deadline.nanos ==> missed(s.push(m), now)
            == missed(s, now).push(m.event_handle),
        now <= m.last + m.deadline.secs * 1_000_000_000 + m.deadline.nanos ==> missed(
            s.push(m),
            now,
        ) == missed(s, now),
        missed(Seq::empty(), now).len() == 0,
{
    assert(s.push(m).drop_last() =~= s);
}

/// What happens to an event leaves what it is: its handle and its kind. Only the numbers
/// of those alive are set together with a change of them, and then the time too; an event
/// whose numbers stay is left alone.
pub proof fn law_event_stays_what_it_is(
    events: Seq<EventState>,
    i: int,
    handle: EventHandle,
    alive: i64,
    not_alive: i64,
    now: u64,
)
    requires
        0 <= i < events.len(),
    ensures
        ({
            let e = events[i];
            let t = triggered(events, handle, now)[i];
            let c = counted(events, handle, alive, not_alive)[i];
            let r = reported(events, alive, not_alive, now)[i];
            &&& t == (EventState { count: t.count, last_triggered: t.last_triggered, ..e })
            &&& c == (EventState {
                alive_count: c.alive_count,
                not_alive_count: c.not_alive_count,
                ..e
            })
            &&& r == (EventState {
                alive_count: r.alive_count,
                not_alive_count: r.not_alive_count,
                count: r.count,
                last_triggered: r.last_triggered,
                ..e
            })
            &&& e.alive_count == alive && e.not_alive_count == not_alive ==> r == e
            &&& e.kind is LivelinessChanged && (e.alive_count != alive || e.not_alive_count
                != not_alive) ==> r.last_triggered == now
        }),
{
}

} // verus!
