//! What is decided on the way to a peer: which of its addresses is tried next, how a
//! message is sealed, what is said of a service call that failed, and what ends a
//! connection.
use crate::quic_transport::PeerAddr;
use vstd::prelude::*;

verus! {

/// What a connection is for.
#[derive(Clone, Copy, Debug, PartialEq, Eq, Structural)]
pub enum Purpose {
    Peer,
    ServiceCall,
}

/// How a try at an address failed.
pub enum AttemptFault {
    /// The connection cannot be set up, at whatever address.
    NotConfigured(String),
    ConnectFailed(String),
    HandshakeFailed(String),
    HandshakeTimedOut,
    StreamFailed(String),
    StreamTimedOut,
}

/// What is done next to reach a peer.
pub enum ConnectStep {
    /// Use the connection that is there.
    Use,
    Try(PeerAddr),
    Fail(String),
}

/// What a step to reach a peer says.
#[verifier::ext_equal]
pub enum ConnectView {
    Use,
    Try(PeerAddr),
    Fail(Seq<char>),
}

impl View for ConnectStep {
    type V = ConnectView;

    open spec fn view(&self) -> ConnectView {
        match self {
            ConnectStep::Use => ConnectView::Use,
            ConnectStep::Try(a) => ConnectView::Try(*a),
            ConnectStep::Fail(e) => ConnectView::Fail(e@),
        }
    }
}

/// The first step to reach a peer: an open connection is used, else the first address is
/// tried.
pub open spec fn first_step(open: bool, candidates: Seq<PeerAddr>) -> ConnectView {
    if open {
        ConnectView::Use
    } else if candidates.len() == 0 {
        ConnectView::Fail("no peer address"@)
    } else {
        ConnectView::Try(candidates[0])
    }
}

/// What is said of a try that failed.
pub open spec fn attempt_text(purpose: Purpose, fault: AttemptFault, via: Seq<char>) -> Seq<char> {
    match fault {
        AttemptFault::NotConfigured(e) => e@,
        AttemptFault::ConnectFailed(e) => "connect failed via "@ + via + ": "@ + e@,
        AttemptFault::HandshakeFailed(e) => "handshake failed via "@ + via + ": "@ + e@,
        AttemptFault::HandshakeTimedOut => match purpose {
            Purpose::Peer => "handshake timed out via "@ + via,
            Purpose::ServiceCall => "handshake timeout via "@ + via,
        },
        AttemptFault::StreamFailed(e) => "open bi failed via "@ + via + ": "@ + e@,
        AttemptFault::StreamTimedOut => "open bi timeout via "@ + via,
    }
}

/// The step after the try at address `at` failed with an error: the next address, or,
/// where there is none, the error.
pub open spec fn later_step(candidates: Seq<PeerAddr>, at: int, error: Seq<char>) -> ConnectView {
    if at + 1 < candidates.len() {
        ConnectView::Try(candidates[at + 1])
    } else {
        ConnectView::Fail(error)
    }
}

fn told(head: &str, via: &str, error: &str) -> (r: String)
    ensures
        r@ == head@ + via@ + ": "@ + error@,
{
    let mut s = head.to_owned();
    s.append(via);
    s.append(": ");
    s.append(error);
    s
}

fn told_of(head: &str, via: &str) -> (r: String)
    ensures
        r@ == head@ + via@,
{
    let mut s = head.to_owned();
    s.append(via);
    s
}

/// What is said of a try at an address that failed.
pub fn attempt_error(purpose: Purpose, fault: &AttemptFault, via: &str) -> (r: String)
    ensures
        r@ == attempt_text(purpose, *fault, via@),
{
    match fault {
        AttemptFault::NotConfigured(e) => e.clone(),
        AttemptFault::ConnectFailed(e) => told("connect failed via ", via, e.as_str()),
        AttemptFault::HandshakeFailed(e) => told("handshake failed via ", via, e.as_str()),
        AttemptFault::HandshakeTimedOut => match purpose {
            Purpose::Peer => told_of("handshake timed out via ", via),
            Purpose::ServiceCall => told_of("handshake timeout via ", via),
        },
        AttemptFault::StreamFailed(e) => told("open bi failed via ", via, e.as_str()),
        AttemptFault::StreamTimedOut => told_of("open bi timeout via ", via),
    }
}

/// The first step to reach a peer.
pub fn connect_first(open: bool, candidates: &Vec<PeerAddr>) -> (r: ConnectStep)
    ensures
        r@ == first_step(open, candidates@),
{
    if open {
        ConnectStep::Use
    } else if candidates.len() == 0 {
        ConnectStep::Fail("no peer address".to_owned())
    } else {
        ConnectStep::Try(candidates[0])
    }
}

/// The step after the try at address `at` failed in this way: a fault that does not rest
/// on the address ends the matter.
pub open spec fn step_after_fault(
    candidates: Seq<PeerAddr>,
    at: int,
    purpose: Purpose,
    fault: AttemptFault,
    via: Seq<char>,
) -> ConnectView {
    match fault {
        AttemptFault::NotConfigured(e) => ConnectView::Fail(e@),
        _ => later_step(candidates, at, attempt_text(purpose, fault, via)),
    }
}

/// The step after the try at address `at` failed; `via` is that address as text.
pub fn connect_next(
    candidates: &Vec<PeerAddr>,
    at: usize,
    purpose: Purpose,
    fault: &AttemptFault,
    via: &str,
) -> (r: ConnectStep)
    requires
        at < candidates@.len(),
    ensures
        r@ == step_after_fault(candidates@, at as int, purpose, *fault, via@),
{
    let n: usize = candidates.len();
    if let AttemptFault::NotConfigured(e) = fault {
        ConnectStep::Fail(e.clone())
    } else if at < n - 1 {
        ConnectStep::Try(candidates[at + 1])
    } else {
        ConnectStep::Fail(attempt_error(purpose, fault, via))
    }
}

/// The step to reach a peer, after tries have failed with these errors.
pub open spec fn step_after(candidates: Seq<PeerAddr>, errors: Seq<Seq<char>>) -> ConnectView {
    if errors.len() == 0 {
        first_step(false, candidates)
    } else {
        later_step(candidates, errors.len() - 1, errors.last())
    }
}

/// As long as it is addresses that fail, every address is tried, in order and once, and
/// only when all have failed is it given up, with what was said of the last.
pub proof fn law_every_address_is_tried(candidates: Seq<PeerAddr>, errors: Seq<Seq<char>>)
    requires
        errors.len() <= candidates.len(),
        candidates.len() > 0,
    ensures
        errors.len() < candidates.len() ==> step_after(candidates, errors) == ConnectView::Try(
            candidates[errors.len() as int],
        ),
        errors.len() == candidates.len() ==> step_after(candidates, errors) == ConnectView::Fail(
            errors.last(),
        ),
{
}

/// Where a service call failed, and with what error; none where it took too long.
pub enum CallFault {
    WriteTopic(Option<String>),
    WriteLength(Option<String>),
    WriteData(Option<String>),
    Finish(String),
    ReadLength(Option<String>),
    ReadData(Option<String>),
    /// A message could not be sealed or opened.
    Security(String),
}

/// What is said of a part of a call that failed.
pub open spec fn part_text(part: Seq<char>, error: Option<String>) -> Seq<char> {
    match error {
        Some(e) => part + " failed: "@ + e@,
        None => part + " timeout"@,
    }
}

/// What is said of a call that failed.
pub open spec fn call_text(fault: CallFault) -> Seq<char> {
    match fault {
        CallFault::WriteTopic(e) => part_text("write topic hash"@, e),
        CallFault::WriteLength(e) => part_text("write req len"@, e),
        CallFault::WriteData(e) => part_text("write req data"@, e),
        CallFault::Finish(e) => "finish failed: "@ + e@,
        CallFault::ReadLength(e) => part_text("read resp len"@, e),
        CallFault::ReadData(e) => part_text("read resp data"@, e),
        CallFault::Security(e) => e@,
    }
}

/// What is done after a service call failed: its connection is dropped, what is said is
/// returned, and the peer is connected to anew where an address is known.
pub struct CallFailure {
    pub error: String,
    pub reconnect: Option<PeerAddr>,
}

fn part_error(part: &str, error: &Option<String>) -> (r: String)
    ensures
        r@ == part_text(part@, *error),
{
    let mut s = part.to_owned();
    match error {
        Some(e) => {
            s.append(" failed: ");
            s.append(e.as_str());
        },
        None => {
            s.append(" timeout");
        },
    }
    s
}

/// What is done after a service call failed.
pub fn call_failed(fault: &CallFault, candidates: &Vec<PeerAddr>) -> (r: CallFailure)
    ensures
        r.error@ == call_text(*fault),
        r.reconnect == (if candidates@.len() > 0 {
            Some(candidates@[0])
        } else {
            None
        }),
{
    let error = match fault {
        CallFault::WriteTopic(e) => part_error("write topic hash", e),
        CallFault::WriteLength(e) => part_error("write req len", e),
        CallFault::WriteData(e) => part_error("write req data", e),
        CallFault::Finish(e) => told_of("finish failed: ", e.as_str()),
        CallFault::ReadLength(e) => part_error("read resp len", e),
        CallFault::ReadData(e) => part_error("read resp data", e),
        CallFault::Security(e) => e.clone(),
    };
    let reconnect = if candidates.len() > 0 {
        Some(candidates[0])
    } else {
        None
    };
    CallFailure { error, reconnect }
}

/// How a message is sealed.
#[derive(Clone, Copy, Debug, PartialEq, Eq, Structural)]
pub enum Sealing {
    /// With the key of a publication on a topic.
    Publication(u64),
    /// With a key of its own.
    Message,
    /// With what the two daemons share.
    Daemon,
}

/// How a message is sealed: with keys for messages where there are any, one for all the
/// peers of a publication.
pub fn sealing(message_keys: bool, publication_id: Option<u64>) -> (r: Sealing)
    ensures
        r == (if !message_keys {
            Sealing::Daemon
        } else {
            match publication_id {
                Some(id) => Sealing::Publication(id),
                None => Sealing::Message,
            }
        }),
{
    if !message_keys {
        Sealing::Daemon
    } else {
        match publication_id {
            Some(id) => Sealing::Publication(id),
            None => Sealing::Message,
        }
    }
}

/// How an answer is sealed.
#[derive(Clone, Copy, Debug, PartialEq, Eq, Structural)]
pub enum ReplySealing {
    /// With a key for messages, for who sent the request.
    MessageReply,
    /// With what the request was sealed with.
    Reply,
    /// As for a daemon that is not known.
    UnknownDaemon,
}

/// How an answer is sealed: for who sent the request, where the request told.
pub fn reply_sealing(told_sender: bool, message_keys: bool) -> (r: ReplySealing)
    ensures
        r == (if !told_sender {
            ReplySealing::UnknownDaemon
        } else if message_keys {
            ReplySealing::MessageReply
        } else {
            ReplySealing::Reply
        }),
{
    if !told_sender {
        ReplySealing::UnknownDaemon
    } else if message_keys {
        ReplySealing::MessageReply
    } else {
        ReplySealing::Reply
    }
}

/// Why no stream came from a connection.
#[derive(Clone, Copy, Debug, PartialEq, Eq, Structural)]
pub enum ConnectionFault {
    ApplicationClosed,
    Reset,
    ConnectionClosed,
    TransportError,
    TimedOut,
    VersionMismatch,
    LocallyClosed,
    CidsExhausted,
}

/// Whether a connection is over: then it is dropped. After another fault the next stream
/// is waited for.
pub fn ends_connection(fault: ConnectionFault) -> (r: bool)
    ensures
        r == (fault is ApplicationClosed || fault is Reset || fault is ConnectionClosed
            || fault is TransportError || fault is TimedOut),
{
    match fault {
        ConnectionFault::ApplicationClosed => true,
        ConnectionFault::Reset => true,
        ConnectionFault::ConnectionClosed => true,
        ConnectionFault::TransportError => true,
        ConnectionFault::TimedOut => true,
        ConnectionFault::VersionMismatch => false,
        ConnectionFault::LocallyClosed => false,
        ConnectionFault::CidsExhausted => false,
    }
}

/// What became of a message for a subscriber.
#[derive(Clone, Copy, Debug, PartialEq, Eq, Structural)]
pub enum Delivery {
    NoSubscriber,
    Taken,
    /// The subscriber has fallen behind, and the message is lost.
    Full,
    /// The subscriber is gone.
    Closed,
}

/// Whether more is read from a stream after a message: until the subscriber is gone.
pub fn keeps_reading(delivery: Delivery) -> (r: bool)
    ensures
        r == !(delivery is Closed),
{
    match delivery {
        Delivery::Closed => false,
        Delivery::NoSubscriber => true,
        Delivery::Taken => true,
        Delivery::Full => true,
    }
}

/// An open connection is used, and nothing is tried; without one it starts with the
/// first address, and fails where there is none.
pub proof fn law_open_connection_is_used(candidates: Seq<PeerAddr>)
    ensures
        first_step(true, candidates) is Use,
        candidates.len() == 0 ==> first_step(false, candidates) is Fail,
        candidates.len() > 0 ==> first_step(false, candidates) == ConnectView::Try(candidates[0]),
{
}

/// A fault that does not rest on the address ends the matter, with what was said of it;
/// any other leads to the next address, and ends it where there is none.
pub proof fn law_only_setup_faults_end_early(
    candidates: Seq<PeerAddr>,
    at: int,
    purpose: Purpose,
    fault: AttemptFault,
    via: Seq<char>,
)
    requires
        0 <= at < candidates.len(),
    ensures
        fault is NotConfigured ==> step_after_fault(candidates, at, purpose, fault, via)
            == ConnectView::Fail(fault->NotConfigured_0@),
        fault !is NotConfigured && at < candidates.len() - 1 ==> step_after_fault(
            candidates,
            at,
            purpose,
            fault,
            via,
        ) == ConnectView::Try(candidates[at + 1]),
        fault !is NotConfigured && at == candidates.len() - 1 ==> step_after_fault(
            candidates,
            at,
            purpose,
            fault,
            via,
        ) is Fail,
        step_after_fault(candidates, at, purpose, fault, via) !is Use,
{
}

} // verus!
