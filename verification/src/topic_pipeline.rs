//! The way the messages of a topic take to a peer: they wait, are made ready a few at a
//! time, and are written to one stream in the order in which they came.
#[allow(unused_imports)]
use crate::quic_transport;
use crate::quic_transport::{enqueue_send, PendingTopicSend, TOPIC_PREPARE_DEPTH};
use vstd::prelude::*;

verus! {

/// The messages on their way to a peer.
pub struct TopicPipeline {
    /// Those that wait.
    pub waiting: Vec<PendingTopicSend>,
    /// The numbers of those that are being made ready, the oldest first.
    pub preparing: Vec<u64>,
    /// Whether a stream is open.
    pub has_stream: bool,
}

/// What a pipeline holds.
#[verifier::ext_equal]
pub struct PipelineView {
    pub waiting: Seq<PendingTopicSend>,
    pub preparing: Seq<u64>,
    pub has_stream: bool,
}

impl View for TopicPipeline {
    type V = PipelineView;

    open spec fn view(&self) -> PipelineView {
        PipelineView {
            waiting: self.waiting@,
            preparing: self.preparing@,
            has_stream: self.has_stream,
        }
    }
}

/// What happens while a message is sent.
#[derive(Clone, Copy, Debug, PartialEq, Eq, Structural)]
pub enum SendEvent {
    /// The oldest message is ready. Whether there is a connection.
    Ready { connected: bool },
    Connected,
    ConnectFailed,
    StreamOpened,
    StreamFailed,
    WriteFailed,
    Written,
}

/// What is done next to send a message.
#[derive(Clone, Copy, Debug, PartialEq, Eq, Structural)]
pub enum SendStep {
    Connect,
    OpenStream,
    Write,
    /// Wait, and begin again.
    Wait,
    /// Drop the connection, wait, and begin again.
    ForgetAndWait,
    /// Drop the connection and begin again at once.
    ForgetAndRetry,
    /// Go on to the next message.
    Next,
}

/// What the worker of a pipeline does next.
#[derive(Clone, Copy, Debug, PartialEq, Eq, Structural)]
pub enum WorkerStep {
    /// Begin to make the oldest waiting message ready.
    Prepare,
    /// Sleep until a message comes.
    Sleep,
    /// Wait for the oldest message to be ready; where `listen` is set, for another to
    /// come as well.
    Await { listen: bool },
}

/// What can happen to a pipeline.
pub enum PipelineOp {
    Enqueue { item: PendingTopicSend, send_depth: usize },
    Prepare,
    Send(SendEvent),
}

/// A pipeline, after something has happened to it.
pub open spec fn advanced(p: PipelineView, op: PipelineOp) -> PipelineView {
    match op {
        PipelineOp::Enqueue { item, send_depth } => PipelineView {
            waiting: quic_transport::last_of(
                p.waiting,
                quic_transport::kept_count(send_depth, p.waiting.len()),
            ).push(item),
            ..p
        },
        PipelineOp::Prepare => if p.preparing.len() < TOPIC_PREPARE_DEPTH && p.waiting.len() > 0 {
            PipelineView {
                waiting: p.waiting.remove(0),
                preparing: p.preparing.push(p.waiting[0].publication_id),
                ..p
            }
        } else {
            p
        },
        PipelineOp::Send(SendEvent::StreamOpened) => PipelineView { has_stream: true, ..p },
        PipelineOp::Send(SendEvent::WriteFailed) => PipelineView { has_stream: false, ..p },
        PipelineOp::Send(SendEvent::Written) => PipelineView {
            preparing: p.preparing.remove(0),
            ..p
        },
        PipelineOp::Send(_) => p,
    }
}

/// What is done next to send a message.
pub open spec fn next_step(has_stream: bool, event: SendEvent) -> SendStep {
    match event {
        SendEvent::Ready { connected } => if has_stream {
            SendStep::Write
        } else if connected {
            SendStep::OpenStream
        } else {
            SendStep::Connect
        },
        SendEvent::Connected => SendStep::OpenStream,
        SendEvent::ConnectFailed => SendStep::Wait,
        SendEvent::StreamOpened => SendStep::Write,
        SendEvent::StreamFailed => SendStep::ForgetAndWait,
        SendEvent::WriteFailed => SendStep::ForgetAndRetry,
        SendEvent::Written => SendStep::Next,
    }
}

/// Whether something can happen to a pipeline: only a message that was made ready is
/// written.
pub open spec fn possible(p: PipelineView, op: PipelineOp) -> bool {
    op == PipelineOp::Send(SendEvent::Written) ==> p.preparing.len() > 0
}

impl TopicPipeline {
    pub fn new() -> (r: TopicPipeline)
        ensures
            r@ == (PipelineView {
                waiting: Seq::empty(),
                preparing: Seq::empty(),
                has_stream: false,
            }),
    {
        TopicPipeline { waiting: Vec::new(), preparing: Vec::new(), has_stream: false }
    }

    /// Takes a message in. Where the depth is the largest number none is lost; else the
    /// oldest that wait make room.
    pub fn enqueue(&mut self, item: PendingTopicSend, send_depth: usize)
        ensures
            final(self)@ == advanced(old(self)@, PipelineOp::Enqueue { item, send_depth }),
    {
        enqueue_send(&mut self.waiting, item, send_depth);
    }

    /// Takes messages in behind those that wait, in their order, and loses none: what
    /// a late subscriber is owed of a publisher that keeps its history.
    pub fn enqueue_all(&mut self, items: Vec<PendingTopicSend>)
        ensures
            final(self)@ == (PipelineView {
                waiting: old(self)@.waiting + items@,
                ..old(self)@
            }),
    {
        let mut items = items;
        self.waiting.append(&mut items);
    }

    /// What the worker does next: it makes messages ready while there are any and few
    /// are under way.
    pub fn worker_step(&self) -> (r: WorkerStep)
        ensures
            r == (if self@.preparing.len() < TOPIC_PREPARE_DEPTH && self@.waiting.len() > 0 {
                WorkerStep::Prepare
            } else if self@.preparing.len() == 0 {
                WorkerStep::Sleep
            } else {
                WorkerStep::Await { listen: self@.preparing.len() < TOPIC_PREPARE_DEPTH }
            }),
    {
        if self.preparing.len() < TOPIC_PREPARE_DEPTH && self.waiting.len() > 0 {
            WorkerStep::Prepare
        } else if self.preparing.len() == 0 {
            WorkerStep::Sleep
        } else {
            WorkerStep::Await { listen: self.preparing.len() < TOPIC_PREPARE_DEPTH }
        }
    }

    /// The next message to make ready: the oldest that waits, where few are under way.
    pub fn take_next(&mut self) -> (r: Option<PendingTopicSend>)
        ensures
            final(self)@ == advanced(old(self)@, PipelineOp::Prepare),
            r == (if old(self)@.preparing.len() < TOPIC_PREPARE_DEPTH && old(self)@.waiting.len()
                > 0 {
                Some(old(self)@.waiting[0])
            } else {
                None
            }),
    {
        if self.preparing.len() < TOPIC_PREPARE_DEPTH && self.waiting.len() > 0 {
            let item = self.waiting.remove(0);
            self.preparing.push(item.publication_id);
            Some(item)
        } else {
            None
        }
    }

    /// What is done next to send the oldest message that is ready: a stream is kept for
    /// as long as writes to it succeed, and a connection on which one fails is dropped.
    /// The message stays first until it is written.
    pub fn send_step(&mut self, event: SendEvent) -> (r: SendStep)
        requires
            possible(old(self)@, PipelineOp::Send(event)),
        ensures
            final(self)@ == advanced(old(self)@, PipelineOp::Send(event)),
            r == next_step(old(self)@.has_stream, event),
    {
        match event {
            SendEvent::Ready { connected } => if self.has_stream {
                SendStep::Write
            } else if connected {
                SendStep::OpenStream
            } else {
                SendStep::Connect
            },
            SendEvent::Connected => SendStep::OpenStream,
            SendEvent::ConnectFailed => SendStep::Wait,
            SendEvent::StreamOpened => {
                self.has_stream = true;
                SendStep::Write
            },
            SendEvent::StreamFailed => SendStep::ForgetAndWait,
            SendEvent::WriteFailed => {
                self.has_stream = false;
                SendStep::ForgetAndRetry
            },
            SendEvent::Written => {
                self.preparing.remove(0);
                SendStep::Next
            },
        }
    }
}

/// The numbers of messages.
pub open spec fn numbers(s: Seq<PendingTopicSend>) -> Seq<u64> {
    Seq::new(s.len(), |i: int| s[i].publication_id)
}

/// The numbers of the messages that a pipeline holds, the oldest first.
pub open spec fn held(p: PipelineView) -> Seq<u64> {
    p.preparing + numbers(p.waiting)
}

/// A pipeline, after all that has happened to it.
pub open spec fn after(p: PipelineView, ops: Seq<PipelineOp>) -> PipelineView
    decreases ops.len(),
{
    if ops.len() == 0 {
        p
    } else {
        advanced(after(p, ops.drop_last()), ops.last())
    }
}

/// Whether all that happened could.
pub open spec fn all_possible(p: PipelineView, ops: Seq<PipelineOp>) -> bool
    decreases ops.len(),
{
    ops.len() == 0 || (all_possible(p, ops.drop_last()) && possible(
        after(p, ops.drop_last()),
        ops.last(),
    ))
}

/// The numbers of the messages that were written, the first first.
pub open spec fn written(p: PipelineView, ops: Seq<PipelineOp>) -> Seq<u64>
    decreases ops.len(),
{
    if ops.len() == 0 {
        Seq::empty()
    } else if ops.last() == PipelineOp::Send(SendEvent::Written) {
        written(p, ops.drop_last()).push(after(p, ops.drop_last()).preparing[0])
    } else {
        written(p, ops.drop_last())
    }
}

/// The numbers of the messages that were taken in, the first first.
pub open spec fn taken_in(ops: Seq<PipelineOp>) -> Seq<u64>
    decreases ops.len(),
{
    if ops.len() == 0 {
        Seq::empty()
    } else {
        match ops.last() {
            PipelineOp::Enqueue { item, .. } => taken_in(ops.drop_last()).push(
                item.publication_id,
            ),
            _ => taken_in(ops.drop_last()),
        }
    }
}

/// Whether no message that was taken in may be lost.
pub open spec fn lossless(ops: Seq<PipelineOp>) -> bool {
    forall|i: int|
        0 <= i < ops.len() ==> ((#[trigger] ops[i]) matches PipelineOp::Enqueue { send_depth, .. }
            ==> send_depth == usize::MAX)
}

/// Where no message may be lost, none is and none overtakes another: what was written
/// and what is still on its way, one after the other, are the messages that were there
/// and those that were taken in, in the order in which they came.
pub proof fn law_reliable_messages_arrive_in_order(p: PipelineView, ops: Seq<PipelineOp>)
    requires
        all_possible(p, ops),
        lossless(ops),
    ensures
        written(p, ops) + held(after(p, ops)) == held(p) + taken_in(ops),
    decreases ops.len(),
{
    if ops.len() == 0 {
        assert(written(p, ops) + held(after(p, ops)) =~= held(p) + taken_in(ops));
    } else {
        let before = ops.drop_last();
        let q = after(p, before);
        let op = ops.last();
        assert(lossless(before)) by {
            assert forall|i: int| 0 <= i < before.len() implies ((#[trigger] before[i]) matches
                PipelineOp::Enqueue { send_depth, .. } ==> send_depth == usize::MAX) by {
                assert(ops[i] == before[i]);
            }
        }
        law_reliable_messages_arrive_in_order(p, before);
        match op {
            PipelineOp::Enqueue { item, send_depth } => {
                assert(ops[ops.len() - 1] == op);
                assert(held(advanced(q, op)) =~= held(q).push(item.publication_id));
                assert(written(p, ops) + held(after(p, ops)) =~= (written(p, before) + held(q)).push(
                    item.publication_id,
                ));
                assert(held(p) + taken_in(ops) =~= (held(p) + taken_in(before)).push(
                    item.publication_id,
                ));
            },
            PipelineOp::Prepare => {
                assert(held(advanced(q, op)) =~= held(q));
            },
            PipelineOp::Send(SendEvent::Written) => {
                assert(written(p, ops) + held(advanced(q, op)) =~= written(p, before) + held(q));
            },
            PipelineOp::Send(_) => {},
        }
    }
}

/// Whether numbers grow.
pub open spec fn grow(s: Seq<u64>) -> bool {
    forall|i: int, j: int| 0 <= i < j < s.len() ==> s[i] < s[j]
}

/// Messages may be lost to make room, but none ever overtakes another: where the numbers
/// of those that are taken in grow, so do the numbers of those that are written.
pub proof fn law_messages_never_overtake(p: PipelineView, ops: Seq<PipelineOp>)
    requires
        all_possible(p, ops),
        grow(held(p) + taken_in(ops)),
    ensures
        grow(written(p, ops)),
        grow(written(p, ops) + held(after(p, ops))),
{
    lemma_order(p, ops);
    let all = written(p, ops) + held(after(p, ops));
    assert forall|i: int, j: int| 0 <= i < j < written(p, ops).len() implies written(p, ops)[i]
        < written(p, ops)[j] by {
        assert(all[i] == written(p, ops)[i]);
        assert(all[j] == written(p, ops)[j]);
    }
}

proof fn lemma_order(p: PipelineView, ops: Seq<PipelineOp>)
    requires
        all_possible(p, ops),
        grow(held(p) + taken_in(ops)),
    ensures
        grow(written(p, ops) + held(after(p, ops))),
        forall|i: int|
            0 <= i < (written(p, ops) + held(after(p, ops))).len() ==> (held(p) + taken_in(
                ops,
            )).contains(#[trigger] (written(p, ops) + held(after(p, ops)))[i]),
    decreases ops.len(),
{
    let all = written(p, ops) + held(after(p, ops));
    let given = held(p) + taken_in(ops);
    if ops.len() == 0 {
        assert(all =~= given);
    } else {
        let before = ops.drop_last();
        let q = after(p, before);
        let op = ops.last();
        let all_before = written(p, before) + held(q);
        let given_before = held(p) + taken_in(before);
        assert forall|i: int, j: int| 0 <= i < j < given_before.len() implies given_before[i]
            < given_before[j] by {
            assert(given[i] == given_before[i] && given[j] == given_before[j]);
        }
        lemma_order(p, before);
        match op {
            PipelineOp::Enqueue { item, send_depth } => {
                let w = q.waiting;
                let n = quic_transport::kept_count(send_depth, w.len());
                let gone: int = if w.len() <= n {
                    0
                } else {
                    w.len() - n
                };
                let front = written(p, before) + q.preparing;
                assert(given =~= given_before.push(item.publication_id));
                assert(all.len() == all_before.len() - gone + 1);
                assert forall|i: int| 0 <= i < all.len() - 1 implies (#[trigger] all[i]) == (if i
                    < front.len() {
                    all_before[i]
                } else {
                    all_before[i + gone]
                }) by {}
                assert(all.last() == item.publication_id);
                assert forall|i: int| 0 <= i < all.len() implies given.contains(
                    #[trigger] all[i],
                ) by {
                    if i < all.len() - 1 {
                        let k: int = if i < front.len() {
                            i
                        } else {
                            i + gone
                        };
                        assert(given_before.contains(all_before[k]));
                        let m = choose|m: int|
                            0 <= m < given_before.len() && given_before[m] == all_before[k];
                        assert(given[m] == all[i]);
                    } else {
                        assert(given[given.len() - 1] == all[i]);
                    }
                }
                assert forall|i: int, j: int| 0 <= i < j < all.len() implies all[i] < all[j] by {
                    let k: int = if i < front.len() {
                        i
                    } else {
                        i + gone
                    };
                    if j < all.len() - 1 {
                        let l: int = if j < front.len() {
                            j
                        } else {
                            j + gone
                        };
                        assert(all_before[k] < all_before[l]);
                    } else {
                        assert(given_before.contains(all_before[k]));
                        let m = choose|m: int|
                            0 <= m < given_before.len() && given_before[m] == all_before[k];
                        assert(given[m] < given[given.len() - 1]);
                    }
                }
            },
            PipelineOp::Prepare => {
                assert(all =~= all_before);
                assert(given =~= given_before);
            },
            PipelineOp::Send(SendEvent::Written) => {
                assert(all =~= all_before);
                assert(given =~= given_before);
            },
            PipelineOp::Send(_) => {
                assert(all =~= all_before);
                assert(given =~= given_before);
            },
        }
    }
}

/// A message is written only to a stream that is open, and a stream is opened only on a
/// connection: who has a stream writes, who has only a connection opens one, and who has
/// neither connects first.
pub proof fn law_write_needs_a_stream(has_stream: bool, event: SendEvent)
    ensures
        next_step(has_stream, event) is Write <==> event is StreamOpened || (event is Ready
            && has_stream),
        next_step(has_stream, event) is OpenStream <==> event is Connected || (event matches
            SendEvent::Ready { connected } && connected && !has_stream),
        next_step(has_stream, event) is Connect <==> (event matches SendEvent::Ready { connected }
            && !connected && !has_stream),
        next_step(has_stream, event) is Next <==> event is Written,
        event is ConnectFailed ==> next_step(has_stream, event) is Wait,
        event is StreamFailed ==> next_step(has_stream, event) is ForgetAndWait,
        event is WriteFailed ==> next_step(has_stream, event) is ForgetAndRetry,
{
}

/// Nothing but a write that succeeded takes a message off the way: whatever else happens
/// while it is sent, it stays first. After a write that failed there is no stream.
pub proof fn law_message_stays_until_written(p: PipelineView, event: SendEvent)
    requires
        possible(p, PipelineOp::Send(event)),
    ensures
        advanced(p, PipelineOp::Send(event)).waiting == p.waiting,
        event !is Written ==> advanced(p, PipelineOp::Send(event)).preparing == p.preparing,
        event is Written ==> seq![p.preparing[0]] + advanced(p, PipelineOp::Send(event)).preparing
            == p.preparing,
        event is WriteFailed ==> !advanced(p, PipelineOp::Send(event)).has_stream,
        event is StreamOpened ==> advanced(p, PipelineOp::Send(event)).has_stream,
        event !is WriteFailed && event !is StreamOpened ==> advanced(
            p,
            PipelineOp::Send(event),
        ).has_stream == p.has_stream,
{
    if event is Written {
        assert(seq![p.preparing[0]] + advanced(p, PipelineOp::Send(event)).preparing
            =~= p.preparing);
    }
}

/// A message that is made ready is the oldest that waits, and no more than four are
/// under way at once.
pub proof fn law_four_messages_are_under_way(p: PipelineView)
    requires
        p.preparing.len() <= 4,
    ensures
        ({
            let q = advanced(p, PipelineOp::Prepare);
            &&& q.preparing.len() <= 4
            &&& held(q) == held(p)
            &&& p.preparing.len() < 4 && p.waiting.len() > 0 ==> q.waiting.len()
                == p.waiting.len() - 1 && q.preparing.len() == p.preparing.len() + 1
            &&& p.preparing.len() == 4 || p.waiting.len() == 0 ==> q == p
        }),
{
    assert(held(advanced(p, PipelineOp::Prepare)) =~= held(p));
}

} // verus!
