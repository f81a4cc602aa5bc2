//! How the graph is written into the buffers of C callers.
use vstd::prelude::*;
use vstd::slice::slice_subrange;
use vstd::utf8::*;

#[allow(unused_imports)]
use crate::bytes;
use crate::bytes::{append_slice, push_le};
#[allow(unused_imports)]
use crate::bridge::settings;
use crate::duration::Duration;
use crate::events::EventKind;
use crate::filter::ContentFilter;
use crate::qos::{Durability, HistoryKind, Liveliness, QosProfile, Reliability};
#[allow(unused_imports)]
use crate::session;
use crate::session::{EndpointView, NameView, Session, TopicEndpointInfo};
#[allow(unused_imports)]
use crate::text;
use crate::text::{chars_of, text_equal};

verus! {

/// A profile as C callers get it.
#[derive(Clone, Copy, Debug, PartialEq, Eq, Structural)]
pub struct QosOutput {
    pub reliability: i32,
    pub durability: i32,
    pub history: i32,
    pub depth: usize,
    pub liveliness: i32,
    pub lease_s: u64,
    pub lease_ns: u32,
    pub deadline_s: u64,
    pub deadline_ns: u32,
    pub lifespan_s: u64,
    pub lifespan_ns: u32,
}

/// The seconds of a span. No span has none.
pub open spec fn secs_of(d: Option<Duration>) -> u64 {
    match d {
        Some(t) => t.secs,
        None => 0,
    }
}

/// The nanoseconds of a span beyond its seconds. No span has none.
pub open spec fn nanos_of(d: Option<Duration>) -> u32 {
    match d {
        Some(t) => t.nanos,
        None => 0,
    }
}

/// A profile as C callers get it: 1 stands for reliable, for transient local and for
/// a bounded history, 1 and 2 for the manual kinds of liveliness, and 0 for
/// everything else.
pub open spec fn qos_output(q: QosProfile) -> QosOutput {
    QosOutput {
        reliability: match q.reliability {
            Reliability::Reliable => 1,
            _ => 0,
        },
        durability: match q.durability {
            Durability::TransientLocal => 1,
            _ => 0,
        },
        history: match q.history {
            HistoryKind::KeepAll => 0,
            HistoryKind::KeepLast { .. } => 1,
        },
        depth: match q.history {
            HistoryKind::KeepAll => 0,
            HistoryKind::KeepLast { depth } => depth,
        },
        liveliness: match q.liveliness {
            Liveliness::ManualByTopic => 1,
            Liveliness::ManualByParticipant => 2,
            _ => 0,
        },
        lease_s: secs_of(q.liveliness_lease_duration),
        lease_ns: nanos_of(q.liveliness_lease_duration),
        deadline_s: secs_of(q.deadline),
        deadline_ns: nanos_of(q.deadline),
        lifespan_s: secs_of(q.lifespan),
        lifespan_ns: nanos_of(q.lifespan),
    }
}

/// The parts of a span.
fn span_parts(d: &Option<Duration>) -> (r: (u64, u32))
    ensures
        r == (secs_of(*d), nanos_of(*d)),
{
    match d {
        Some(t) => (t.as_secs(), t.subsec_nanos()),
        None => (0, 0),
    }
}

/// A profile as C callers get it.
pub fn write_qos_to_output(qos: &QosProfile) -> (r: QosOutput)
    ensures
        r == qos_output(*qos),
{
    let (history, depth): (i32, usize) = match qos.history {
        HistoryKind::KeepAll => (0, 0),
        HistoryKind::KeepLast { depth } => (1, depth),
    };
    let (lease_s, lease_ns) = span_parts(&qos.liveliness_lease_duration);
    let (deadline_s, deadline_ns) = span_parts(&qos.deadline);
    let (lifespan_s, lifespan_ns) = span_parts(&qos.lifespan);
    QosOutput {
        reliability: match qos.reliability {
            Reliability::Reliable => 1,
            Reliability::BestEffort => 0,
        },
        durability: match qos.durability {
            Durability::TransientLocal => 1,
            Durability::Volatile => 0,
        },
        history,
        depth,
        liveliness: match qos.liveliness {
            Liveliness::ManualByTopic => 1,
            Liveliness::ManualByParticipant => 2,
            Liveliness::Automatic => 0,
            Liveliness::Unknown => 0,
        },
        lease_s,
        lease_ns,
        deadline_s,
        deadline_ns,
        lifespan_s,
        lifespan_ns,
    }
}

/// How many bytes pieces have in all.
pub open spec fn total_len(pieces: Seq<Seq<u8>>) -> nat
    decreases pieces.len(),
{
    if pieces.len() == 0 {
        0
    } else {
        total_len(pieces.drop_last()) + pieces.last().len()
    }
}

/// Pieces one behind the other.
pub open spec fn joined(pieces: Seq<Seq<u8>>) -> Seq<u8>
    decreases pieces.len(),
{
    if pieces.len() == 0 {
        Seq::empty()
    } else {
        joined(pieces.drop_last()) + pieces.last()
    }
}

/// How many leading pieces fit into `room` bytes. The first that does not fit ends
/// the matter.
pub open spec fn fitting(pieces: Seq<Seq<u8>>, room: nat) -> nat
    decreases pieces.len(),
{
    if pieces.len() == 0 {
        0
    } else {
        let k = fitting(pieces.drop_last(), room);
        if k == pieces.len() - 1 && total_len(pieces) <= room {
            pieces.len()
        } else {
            k
        }
    }
}

/// A text with the zero that ends it.
pub open spec fn c_text(s: Seq<char>) -> Seq<u8> {
    encode_utf8(s).push(0)
}

/// How many pieces an endpoint record has.
pub const RECORD_PIECES: usize = 8;

/// The pieces of an endpoint record: its node's name and namespace, its type, its
/// identity, its reliability, its durability, the kind of its history and the depth of
/// it. Numbers are little-endian; of the depth the lower 32 bits are written.
pub open spec fn record_pieces(e: EndpointView) -> Seq<Seq<u8>> {
    let q = qos_output(e.qos);
    seq![
        c_text(e.node_name),
        c_text(e.node_namespace),
        c_text(e.topic_type),
        e.gid,
        bytes::le_bytes(q.reliability as nat, 4),
        bytes::le_bytes(q.durability as nat, 4),
        bytes::le_bytes(q.history as nat, 4),
        bytes::le_bytes((q.depth as nat % 0x1_0000_0000), 4),
    ]
}

/// The pieces of endpoint records, one record behind the other.
pub open spec fn all_pieces(es: Seq<EndpointView>) -> Seq<Seq<u8>>
    decreases es.len(),
{
    if es.len() == 0 {
        Seq::empty()
    } else {
        all_pieces(es.drop_last()) + record_pieces(es.last())
    }
}

/// The first pieces that fit into `room` bytes, one behind the other.
pub open spec fn fitted_bytes(pieces: Seq<Seq<u8>>, room: nat) -> Seq<u8> {
    joined(pieces.subrange(0, fitting(pieces, room) as int))
}

proof fn lemma_fitting(pieces: Seq<Seq<u8>>, room: nat)
    ensures
        fitting(pieces, room) <= pieces.len(),
    decreases pieces.len(),
{
    if pieces.len() > 0 {
        lemma_fitting(pieces.drop_last(), room);
    }
}

proof fn lemma_joined_len(pieces: Seq<Seq<u8>>)
    ensures
        joined(pieces).len() == total_len(pieces),
    decreases pieces.len(),
{
    if pieces.len() > 0 {
        lemma_joined_len(pieces.drop_last());
    }
}

/// Once a piece did not fit, those behind it are not written.
proof fn lemma_fitting_ends(pieces: Seq<Seq<u8>>, n: int, room: nat)
    requires
        0 <= n <= pieces.len(),
        fitting(pieces.subrange(0, n), room) < n,
    ensures
        fitting(pieces, room) == fitting(pieces.subrange(0, n), room),
    decreases pieces.len(),
{
    if n < pieces.len() {
        assert(pieces.drop_last().subrange(0, n) =~= pieces.subrange(0, n));
        lemma_fitting_ends(pieces.drop_last(), n, room);
    } else {
        assert(pieces.subrange(0, n) =~= pieces);
    }
}

/// Pieces that fit in all are all written.
proof fn lemma_all_fit(pieces: Seq<Seq<u8>>, room: nat)
    requires
        total_len(pieces) <= room,
    ensures
        fitting(pieces, room) == pieces.len(),
    decreases pieces.len(),
{
    if pieces.len() > 0 {
        lemma_all_fit(pieces.drop_last(), room);
    }
}

/// Whether a piece that ends at `end` of a list of pieces was written.
proof fn lemma_next_piece(pieces: Seq<Seq<u8>>, i: int, room: nat)
    requires
        0 <= i < pieces.len(),
        fitting(pieces.subrange(0, i), room) == i,
    ensures
        joined(pieces.subrange(0, i + 1)) == joined(pieces.subrange(0, i)) + pieces[i],
        joined(pieces.subrange(0, i)).len() + pieces[i].len() == total_len(
            pieces.subrange(0, i + 1),
        ),
        fitting(pieces.subrange(0, i + 1), room) == (if joined(pieces.subrange(0, i)).len()
            + pieces[i].len() <= room {
            i + 1
        } else {
            i
        }),
{
    assert(pieces.subrange(0, i + 1).drop_last() =~= pieces.subrange(0, i));
    lemma_joined_len(pieces.subrange(0, i));
}

/// What pieces hold.
pub open spec fn pieces_view(s: Seq<Vec<u8>>) -> Seq<Seq<u8>> {
    Seq::new(s.len(), |i: int| s[i]@)
}

/// A text with the zero that ends it.
fn c_text_bytes(s: &str) -> (r: Vec<u8>)
    ensures
        r@ == c_text(s@),
{
    let mut out: Vec<u8> = Vec::new();
    append_slice(&mut out, s.as_bytes());
    out.push(0);
    proof {
        assert(out@ =~= c_text(s@));
    }
    out
}

/// A number of four bytes.
fn word(n: u64) -> (r: Vec<u8>)
    ensures
        r@ == bytes::le_bytes(n as nat, 4),
{
    let mut out: Vec<u8> = Vec::new();
    push_le(&mut out, n, 4);
    proof {
        assert(out@ =~= bytes::le_bytes(n as nat, 4));
    }
    out
}

/// The pieces of an endpoint record.
fn pieces_of(info: &TopicEndpointInfo) -> (r: Vec<Vec<u8>>)
    ensures
        pieces_view(r@) == record_pieces(info@),
{
    let q = write_qos_to_output(&info.qos);
    let mut gid: Vec<u8> = Vec::new();
    append_slice(&mut gid, info.gid.as_slice());
    let depth: u64 = q.depth as u64 % 0x1_0000_0000;
    let mut r: Vec<Vec<u8>> = Vec::new();
    r.push(c_text_bytes(info.node_name.as_str()));
    r.push(c_text_bytes(info.node_namespace.as_str()));
    r.push(c_text_bytes(info.topic_type.as_str()));
    r.push(gid);
    r.push(word(q.reliability as u64));
    r.push(word(q.durability as u64));
    r.push(word(q.history as u64));
    r.push(word(depth));
    proof {
        assert(gid@ =~= info@.gid);
        assert(pieces_view(r@) =~= record_pieces(info@));
    }
    r
}

proof fn lemma_all_pieces_len(es: Seq<EndpointView>)
    ensures
        all_pieces(es).len() == RECORD_PIECES * es.len(),
    decreases es.len(),
{
    if es.len() > 0 {
        lemma_all_pieces_len(es.drop_last());
    }
}

/// The pieces of the first records stand before those of all records.
proof fn lemma_all_pieces_prefix(es: Seq<EndpointView>, n: int)
    requires
        0 <= n <= es.len(),
    ensures
        all_pieces(es.subrange(0, n)) == all_pieces(es).subrange(0, RECORD_PIECES * n),
    decreases es.len(),
{
    lemma_all_pieces_len(es);
    if n < es.len() {
        lemma_all_pieces_prefix(es.drop_last(), n);
        lemma_all_pieces_len(es.drop_last());
        assert(es.drop_last().subrange(0, n) =~= es.subrange(0, n));
        assert(all_pieces(es.drop_last()).subrange(0, RECORD_PIECES * n) =~= all_pieces(
            es,
        ).subrange(0, RECORD_PIECES * n));
    } else {
        assert(es.subrange(0, n) =~= es);
        assert(all_pieces(es).subrange(0, RECORD_PIECES * n) =~= all_pieces(es));
    }
}

/// Writes endpoint records into a buffer of `room` bytes, piece by piece, until one
/// does not fit. The result is what was written and how many records are complete.
pub fn write_endpoint_infos_to_buf(infos: &[&TopicEndpointInfo], room: u32) -> (r: (
    Vec<u8>,
    u32,
))
    ensures
        r.0@ == fitted_bytes(all_pieces(session::refs_view(infos@)), room as nat),
        r.1 == fitting(all_pieces(session::refs_view(infos@)), room as nat) / (
        RECORD_PIECES as nat),
{
    let ghost es = session::refs_view(infos@);
    let ghost all = all_pieces(es);
    let mut out: Vec<u8> = Vec::new();
    let mut written: u32 = 0;
    let mut i: usize = 0;
    proof {
        lemma_all_pieces_len(es);
        assert(all.subrange(0, 0) =~= Seq::<Seq<u8>>::empty());
        assert(out@ =~= Seq::<u8>::empty());
    }
    while i < infos.len()
        invariant
            i <= infos@.len(),
            es == session::refs_view(infos@),
            all == all_pieces(es),
            all.len() == RECORD_PIECES * es.len(),
            fitting(all.subrange(0, RECORD_PIECES * i), room as nat) == RECORD_PIECES * i,
            out@ == joined(all.subrange(0, RECORD_PIECES * i)),
            out@.len() <= room,
            written == i,
            RECORD_PIECES * i <= out@.len(),
        decreases infos@.len() - i,
    {
        let record = pieces_of(infos[i]);
        let ghost base: int = RECORD_PIECES * i;
        proof {
            assert(es.subrange(0, i + 1).drop_last() =~= es.subrange(0, i as int));
            lemma_all_pieces_prefix(es, i as int);
            lemma_all_pieces_prefix(es, i + 1);
            lemma_all_pieces_len(es.subrange(0, i as int));
            assert(es[i as int] == infos@[i as int]@);
            assert forall|k: int| 0 <= k < RECORD_PIECES implies all[base + k]
                == #[trigger] record@[k]@ by {
                assert(all.subrange(0, RECORD_PIECES * (i + 1))[base + k] == record_pieces(
                    es[i as int],
                )[k]);
                assert(pieces_view(record@)[k] == record@[k]@);
            }
            assert(record@.len() == pieces_view(record@).len());
        }
        let mut k: usize = 0;
        while k < record.len()
            invariant
                k <= record@.len() == RECORD_PIECES,
                base == RECORD_PIECES * i,
                i < infos@.len(),
                es == session::refs_view(infos@),
                all == all_pieces(es),
                all.len() == RECORD_PIECES * es.len(),
                forall|k: int| 0 <= k < RECORD_PIECES ==> all[base + k] == #[trigger] record@[k]@,
                forall|k: int| 0 <= k < RECORD_PIECES ==> (#[trigger] record@[k])@.len() >= 1,
                fitting(all.subrange(0, base + k), room as nat) == base + k,
                out@ == joined(all.subrange(0, base + k)),
                out@.len() <= room,
                written == i,
                base + k <= out@.len(),
            decreases record@.len() - k,
        {
            proof {
                lemma_next_piece(all, base + k, room as nat);
            }
            if record[k].len() > room as usize - out.len() {
                proof {
                    lemma_fitting_ends(all, base + k + 1, room as nat);
                    assert((base + k) / (RECORD_PIECES as int) == i) by (nonlinear_arith)
                        requires
                            base == RECORD_PIECES * i,
                            0 <= k < RECORD_PIECES,
                            RECORD_PIECES == 8,
                    ;
                }
                return (out, written);
            }
            append_slice(&mut out, &record[k]);
            k += 1;
        }
        written += 1;
        i += 1;
    }
    proof {
        assert(all.subrange(0, RECORD_PIECES * i) =~= all);
        assert((RECORD_PIECES * i) / (RECORD_PIECES as int) == i) by (nonlinear_arith)
            requires
                RECORD_PIECES == 8,
        ;
    }
    (out, written)
}

/// How many bytes the record of an endpoint has.
pub open spec fn record_len(e: EndpointView) -> nat {
    total_len(record_pieces(e))
}

proof fn lemma_total_len_add(a: Seq<Seq<u8>>, b: Seq<Seq<u8>>)
    ensures
        total_len(a + b) == total_len(a) + total_len(b),
    decreases b.len(),
{
    if b.len() == 0 {
        assert(a + b =~= a);
    } else {
        assert((a + b).drop_last() =~= a + b.drop_last());
        lemma_total_len_add(a, b.drop_last());
    }
}

proof fn lemma_record_len(e: EndpointView)
    requires
        e.gid.len() == 16,
    ensures
        record_len(e) == encode_utf8(e.node_name).len() + encode_utf8(e.node_namespace).len()
            + encode_utf8(e.topic_type).len() + 35,
{
    broadcast use bytes::lemma_le_bytes_len;

    let p = record_pieces(e);
    reveal_with_fuel(total_len, 9);
    let p7 = p.drop_last();
    let p6 = p7.drop_last();
    let p5 = p6.drop_last();
    let p4 = p5.drop_last();
    let p3 = p4.drop_last();
    let p2 = p3.drop_last();
    let p1 = p2.drop_last();
    assert(p1.len() == 1 && p1.drop_last().len() == 0);
    assert(p[4].len() == 4 && p[5].len() == 4 && p[6].len() == 4 && p[7].len() == 4);
}

/// How many bytes the record of an endpoint has.
pub fn endpoint_info_serialized_len(info: &TopicEndpointInfo) -> (r: usize)
    requires
        record_len(info@) <= usize::MAX,
    ensures
        r == record_len(info@),
{
    proof {
        lemma_record_len(info@);
    }
    info.node_name.as_str().as_bytes().len() + 1 + info.node_namespace.as_str().as_bytes().len() + 1
        + info.topic_type.as_str().as_bytes().len() + 1 + 16 + 16
}

/// What is left of `room` behind a text and its zero.
fn room_behind(s: &str, room: usize) -> (r: Option<usize>)
    ensures
        match r {
            Some(left) => left == room - c_text(s@).len(),
            None => c_text(s@).len() > room,
        },
{
    let n: usize = s.as_bytes().len();
    if n >= room {
        None
    } else {
        Some(room - n - 1)
    }
}

/// What is left of `room` behind the record of an endpoint.
fn room_behind_record(info: &TopicEndpointInfo, room: usize) -> (r: Option<usize>)
    ensures
        match r {
            Some(left) => left == room - record_len(info@),
            None => record_len(info@) > room,
        },
{
    proof {
        lemma_record_len(info@);
    }
    let left: usize = room_behind(info.node_name.as_str(), room)?;
    let left: usize = room_behind(info.node_namespace.as_str(), left)?;
    let left: usize = room_behind(info.topic_type.as_str(), left)?;
    if left < 32 {
        None
    } else {
        Some(left - 32)
    }
}

/// Whether all records fit into a buffer.
fn records_fit(infos: &[&TopicEndpointInfo], room: u32) -> (r: bool)
    ensures
        r == (total_len(all_pieces(session::refs_view(infos@))) <= room),
{
    let ghost es = session::refs_view(infos@);
    let mut left: usize = room as usize;
    let mut i: usize = 0;
    proof {
        assert(es.subrange(0, 0) =~= Seq::<EndpointView>::empty());
    }
    while i < infos.len()
        invariant
            i <= infos@.len(),
            es == session::refs_view(infos@),
            left <= room,
            total_len(all_pieces(es.subrange(0, i as int))) == room - left,
        decreases infos@.len() - i,
    {
        proof {
            assert(es[i as int] == infos@[i as int]@);
            assert(es.subrange(0, i + 1).drop_last() =~= es.subrange(0, i as int));
            lemma_total_len_add(
                all_pieces(es.subrange(0, i as int)),
                record_pieces(es[i as int]),
            );
        }
        match room_behind_record(infos[i], left) {
            Some(n) => {
                left = n;
            },
            None => {
                proof {
                    lemma_longer_with_more(es, i + 1);
                }
                return false;
            },
        }
        i += 1;
    }
    proof {
        assert(es.subrange(0, i as int) =~= es);
    }
    true
}

/// More records need no fewer bytes.
proof fn lemma_longer_with_more(es: Seq<EndpointView>, n: int)
    requires
        0 <= n <= es.len(),
    ensures
        total_len(all_pieces(es.subrange(0, n))) <= total_len(all_pieces(es)),
    decreases es.len(),
{
    if n < es.len() {
        lemma_longer_with_more(es.drop_last(), n);
        assert(es.drop_last().subrange(0, n) =~= es.subrange(0, n));
        lemma_total_len_add(all_pieces(es.drop_last()), record_pieces(es.last()));
    } else {
        assert(es.subrange(0, n) =~= es);
    }
}

/// What a C caller gets: a return code, how many entries there are, where that is
/// said, and what is written into its buffer.
pub struct GraphReply {
    pub code: i32,
    pub count: Option<u32>,
    pub written: Vec<u8>,
}

/// The reply where there is no session.
pub open spec fn is_failure(r: GraphReply) -> bool {
    r.code == -1 && r.count is None && r.written@.len() == 0
}

/// The reply to a caller whose buffer of `room` bytes is to take `pieces`, which make
/// `count` entries: all of them, or none and the count, so that the caller can try
/// again with a larger buffer.
pub open spec fn is_reply(r: GraphReply, pieces: Seq<Seq<u8>>, count: nat, room: u32) -> bool {
    &&& r.count == Some(count as u32)
    &&& if total_len(pieces) <= room {
        r.code == 0 && r.written@ == joined(pieces)
    } else {
        r.code == -2 && r.written@.len() == 0
    }
}

fn failure() -> (r: GraphReply)
    ensures
        is_failure(r),
{
    GraphReply { code: -1, count: None, written: Vec::new() }
}

/// Writes the records of endpoints for a caller.
fn get_endpoint_info_impl(infos: &[&TopicEndpointInfo], room: u32) -> (r: GraphReply)
    ensures
        is_reply(
            r,
            all_pieces(session::refs_view(infos@)),
            infos@.len(),
            room,
        ),
{
    if !records_fit(infos, room) {
        return GraphReply {
            code: -2,
            count: Some(#[verifier::truncate] (infos.len() as u32)),
            written: Vec::new(),
        };
    }
    let (written, count) = write_endpoint_infos_to_buf(infos, room);
    proof {
        let pieces = all_pieces(session::refs_view(infos@));
        lemma_all_fit(pieces, room as nat);
        lemma_all_pieces_len(session::refs_view(infos@));
        assert(pieces.subrange(0, pieces.len() as int) =~= pieces);
        assert((RECORD_PIECES * infos@.len()) / (RECORD_PIECES as int) == infos@.len())
            by (nonlinear_arith)
            requires
                RECORD_PIECES == 8,
        ;
    }
    GraphReply { code: 0, count: Some(count), written }
}

/// The publishers of a topic, as records.
pub fn axon_session_get_publishers_info(session: Option<&Session>, topic: &str, room: u32) -> (r:
    GraphReply)
    ensures
        session is None ==> is_failure(r),
        session matches Some(s) ==> is_reply(
            r,
            all_pieces(session::endpoints_of(s@.publishers, topic@)),
            session::endpoints_of(s@.publishers, topic@).len(),
            room,
        ),
{
    match session {
        Some(s) => get_endpoint_info_impl(&s.get_publishers_info(topic), room),
        None => failure(),
    }
}

/// The subscriptions of a topic, as records.
pub fn axon_session_get_subscriptions_info(
    session: Option<&Session>,
    topic: &str,
    room: u32,
) -> (r: GraphReply)
    ensures
        session is None ==> is_failure(r),
        session matches Some(s) ==> is_reply(
            r,
            all_pieces(session::endpoints_of(s@.subscriptions, topic@)),
            session::endpoints_of(s@.subscriptions, topic@).len(),
            room,
        ),
{
    match session {
        Some(s) => get_endpoint_info_impl(&s.get_subscriptions_info(topic), room),
        None => failure(),
    }
}

/// How many publishers a topic has.
pub fn axon_session_count_publishers(session: Option<&Session>, topic: &str) -> (r: Option<u32>)
    ensures
        r is None <==> session is None,
        session matches Some(s) ==> r == Some(
            session::endpoints_of(s@.publishers, topic@).len() as u32,
        ),
{
    match session {
        Some(s) => Some(#[verifier::truncate] (s.count_publishers(topic) as u32)),
        None => None,
    }
}

/// How many subscriptions a topic has.
pub fn axon_session_count_subscribers(session: Option<&Session>, topic: &str) -> (r: Option<u32>)
    ensures
        r is None <==> session is None,
        session matches Some(s) ==> r == Some(
            session::endpoints_of(s@.subscriptions, topic@).len() as u32,
        ),
{
    match session {
        Some(s) => Some(#[verifier::truncate] (s.count_subscribers(topic) as u32)),
        None => None,
    }
}

/// Texts, each with the zero that ends it.
pub open spec fn c_texts(texts: Seq<Seq<char>>) -> Seq<Seq<u8>> {
    Seq::new(texts.len(), |i: int| c_text(texts[i]))
}

/// What references to texts hold.
pub open spec fn strs_view(s: Seq<&str>) -> Seq<Seq<char>> {
    Seq::new(s.len(), |i: int| s[i]@)
}

/// Pieces of which the first do not fit do not fit.
proof fn lemma_total_len_prefix(pieces: Seq<Seq<u8>>, n: int)
    requires
        0 <= n <= pieces.len(),
    ensures
        total_len(pieces.subrange(0, n)) <= total_len(pieces),
    decreases pieces.len(),
{
    if n < pieces.len() {
        lemma_total_len_prefix(pieces.drop_last(), n);
        assert(pieces.drop_last().subrange(0, n) =~= pieces.subrange(0, n));
    } else {
        assert(pieces.subrange(0, n) =~= pieces);
    }
}

/// Writes texts for a caller; they make `count` entries.
fn write_texts(texts: &Vec<&str>, count: usize, room: u32) -> (r: GraphReply)
    ensures
        is_reply(r, c_texts(strs_view(texts@)), count as nat, room),
{
    let ghost pieces = c_texts(strs_view(texts@));
    let mut left: usize = room as usize;
    let mut written: Vec<u8> = Vec::new();
    let mut i: usize = 0;
    proof {
        assert(pieces.subrange(0, 0) =~= Seq::<Seq<u8>>::empty());
        assert(written@ =~= Seq::<u8>::empty());
    }
    while i < texts.len()
        invariant
            i <= texts@.len(),
            pieces == c_texts(strs_view(texts@)),
            left <= room,
            total_len(pieces.subrange(0, i as int)) == room - left,
            written@ == joined(pieces.subrange(0, i as int)),
        decreases texts@.len() - i,
    {
        proof {
            assert(pieces.subrange(0, i + 1).drop_last() =~= pieces.subrange(0, i as int));
            assert(pieces[i as int] == c_text(texts@[i as int]@));
        }
        match room_behind(texts[i], left) {
            Some(n) => {
                left = n;
            },
            None => {
                proof {
                    lemma_total_len_prefix(pieces, i + 1);
                }
                return GraphReply {
                    code: -2,
                    count: Some(#[verifier::truncate] (count as u32)),
                    written: Vec::new(),
                };
            },
        }
        append_slice(&mut written, &c_text_bytes(texts[i]));
        i += 1;
    }
    proof {
        assert(pieces.subrange(0, i as int) =~= pieces);
    }
    GraphReply { code: 0, count: Some(#[verifier::truncate] (count as u32)), written }
}

/// The names in a list of names.
pub open spec fn only_names(s: Seq<NameView>) -> Seq<Seq<char>> {
    Seq::new(s.len(), |i: int| s[i].name)
}

/// Names and what goes with them, in turn.
pub open spec fn names_and_kinds(s: Seq<NameView>) -> Seq<Seq<char>>
    decreases s.len(),
{
    if s.len() == 0 {
        Seq::empty()
    } else {
        names_and_kinds(s.drop_last()).push(s.last().name).push(s.last().kind)
    }
}

/// Writes the names in a list of names for a caller.
fn write_names(names: &Vec<(String, String)>, room: u32) -> (r: GraphReply)
    ensures
        is_reply(r, c_texts(only_names(session::names_view(names@))), names@.len(), room),
{
    let mut texts: Vec<&str> = Vec::new();
    let mut i: usize = 0;
    while i < names.len()
        invariant
            i <= names@.len(),
            texts@.len() == i,
            forall|k: int| 0 <= k < i ==> (#[trigger] texts@[k])@ == names@[k].0@,
        decreases names@.len() - i,
    {
        texts.push(names[i].0.as_str());
        i += 1;
    }
    proof {
        assert(strs_view(texts@) =~= only_names(session::names_view(names@)));
    }
    write_texts(&texts, names.len(), room)
}

/// The names of all nodes, each with the zero that ends it.
pub fn axon_session_get_node_names(session: Option<&Session>, room: u32) -> (r: GraphReply)
    ensures
        session is None ==> is_failure(r),
        session matches Some(s) ==> is_reply(
            r,
            c_texts(only_names(s@.nodes)),
            s@.nodes.len(),
            room,
        ),
{
    match session {
        Some(s) => write_names(&s.nodes, room),
        None => failure(),
    }
}

/// The names of all topics, each with the zero that ends it.
pub fn axon_session_get_topic_names(session: Option<&Session>, room: u32) -> (r: GraphReply)
    ensures
        session is None ==> is_failure(r),
        session matches Some(s) ==> is_reply(
            r,
            c_texts(only_names(s@.topics)),
            s@.topics.len(),
            room,
        ),
{
    match session {
        Some(s) => write_names(&s.topics, room),
        None => failure(),
    }
}

/// The names and namespaces of all nodes in turn, each with the zero that ends it.
pub fn axon_session_get_node_names_with_namespaces(session: Option<&Session>, room: u32) -> (r:
    GraphReply)
    ensures
        session is None ==> is_failure(r),
        session matches Some(s) ==> is_reply(
            r,
            c_texts(names_and_kinds(s@.nodes)),
            s@.nodes.len(),
            room,
        ),
{
    let nodes: &Vec<(String, String)> = match session {
        Some(s) => &s.nodes,
        None => {
            return failure();
        },
    };
    let ghost views = session::names_view(nodes@);
    let mut texts: Vec<&str> = Vec::new();
    let mut i: usize = 0;
    proof {
        assert(views.subrange(0, 0) =~= Seq::<NameView>::empty());
        assert(strs_view(texts@) =~= Seq::<Seq<char>>::empty());
    }
    while i < nodes.len()
        invariant
            i <= nodes@.len(),
            views == session::names_view(nodes@),
            strs_view(texts@) == names_and_kinds(views.subrange(0, i as int)),
        decreases nodes@.len() - i,
    {
        let ghost before = strs_view(texts@);
        texts.push(nodes[i].0.as_str());
        texts.push(nodes[i].1.as_str());
        proof {
            assert(views.subrange(0, i + 1).drop_last() =~= views.subrange(0, i as int));
            assert(strs_view(texts@) =~= before.push(views[i as int].name).push(
                views[i as int].kind,
            ));
        }
        i += 1;
    }
    proof {
        assert(views.subrange(0, i as int) =~= views);
    }
    write_texts(&texts, nodes.len(), room)
}

/// The names and namespaces of all nodes; enclaves are not kept apart from them.
pub fn axon_session_get_node_names_with_enclaves(session: Option<&Session>, room: u32) -> (r:
    GraphReply)
    ensures
        session is None ==> is_failure(r),
        session matches Some(s) ==> is_reply(
            r,
            c_texts(names_and_kinds(s@.nodes)),
            s@.nodes.len(),
            room,
        ),
{
    axon_session_get_node_names_with_namespaces(session, room)
}

/// A text as a C string: an empty one where it holds a zero.
pub open spec fn as_c_string(s: Seq<char>) -> Seq<char> {
    if s.contains('\0') {
        Seq::empty()
    } else {
        s
    }
}

/// A text as a C string.
fn c_string(s: &str) -> (r: String)
    ensures
        r@ == as_c_string(s@),
{
    let chars = chars_of(s);
    let mut i: usize = 0;
    while i < chars.len()
        invariant
            i <= chars@.len(),
            chars@ == s@,
            forall|k: int| 0 <= k < i ==> s@[k] != '\0',
        decreases chars@.len() - i,
    {
        if chars[i] == '\0' {
            let r = String::new();
            proof {
                assert(s@.contains(s@[i as int]));
                assert(r@ =~= Seq::<char>::empty());
            }
            return r;
        }
        i += 1;
    }
    s.to_owned()
}

/// The type of the first topic of that name.
pub open spec fn type_of_topic(topics: Seq<NameView>, name: Seq<char>) -> Option<Seq<char>>
    decreases topics.len(),
{
    if topics.len() == 0 {
        None
    } else if topics[0].name == name {
        Some(topics[0].kind)
    } else {
        type_of_topic(topics.subrange(1, topics.len() as int), name)
    }
}

/// The type of a topic as a C string.
pub fn axon_session_get_topic_type(session: Option<&Session>, topic: &str) -> (r: Option<String>)
    ensures
        match r {
            Some(t) => session is Some && type_of_topic(session->0@.topics, topic@) is Some && t@
                == as_c_string(type_of_topic(session->0@.topics, topic@)->0),
            None => session is Some ==> type_of_topic(session->0@.topics, topic@) is None,
        },
{
    let topics: &Vec<(String, String)> = match session {
        Some(s) => &s.topics,
        None => {
            return None;
        },
    };
    let ghost views = session::names_view(topics@);
    let mut i: usize = 0;
    proof {
        assert(views.subrange(0, views.len() as int) =~= views);
    }
    while i < topics.len()
        invariant
            i <= topics@.len(),
            views == session::names_view(topics@),
            type_of_topic(views, topic@) == type_of_topic(
                views.subrange(i as int, views.len() as int),
                topic@,
            ),
            session is Some,
            session->0@.topics == views,
        decreases topics@.len() - i,
    {
        proof {
            let rest = views.subrange(i as int, views.len() as int);
            assert(rest.subrange(1, rest.len() as int) =~= views.subrange(
                i + 1,
                views.len() as int,
            ));
        }
        if text_equal(topics[i].0.as_str(), topic) {
            return Some(c_string(topics[i].1.as_str()));
        }
        i += 1;
    }
    None
}

/// The services of a graph: their names and their types, as C strings in two lists.
pub fn axon_session_get_service_names_and_types(session: Option<&Session>) -> (r: Option<
    (Vec<String>, Vec<String>),
>)
    requires
        session matches Some(s) ==> forall|i: int|
            0 <= i < s@.services.len() ==> !(#[trigger] s@.services[i]).name.contains('\0')
                && !s@.services[i].kind.contains('\0'),
    ensures
        r is Some <==> session is Some,
        r matches Some(lists) ==> text::texts(lists.0@) == only_names(session->0@.services)
            && text::texts(lists.1@) == Seq::new(
            session->0@.services.len(),
            |i: int| session->0@.services[i].kind,
        ),
{
    let services: &Vec<(String, String)> = match session {
        Some(s) => &s.services,
        None => {
            return None;
        },
    };
    let ghost views = session::names_view(services@);
    let mut names: Vec<String> = Vec::new();
    let mut types: Vec<String> = Vec::new();
    let mut i: usize = 0;
    while i < services.len()
        invariant
            i <= services@.len(),
            views == session::names_view(services@),
            names@.len() == i,
            types@.len() == i,
            forall|k: int| 0 <= k < i ==> (#[trigger] names@[k])@ == views[k].name,
            forall|k: int| 0 <= k < i ==> (#[trigger] types@[k])@ == views[k].kind,
        decreases services@.len() - i,
    {
        names.push(services[i].0.as_str().to_owned());
        types.push(services[i].1.as_str().to_owned());
        i += 1;
    }
    proof {
        assert(text::texts(names@) =~= only_names(views));
        assert(text::texts(types@) =~= Seq::new(views.len(), |i: int| views[i].kind));
    }
    Some((names, types))
}

/// The type that stands for an endpoint's types: the first, or none is known.
pub open spec fn first_type(types: Seq<String>) -> Seq<char> {
    if types.len() == 0 {
        "unknown"@
    } else {
        types[0]@
    }
}

/// Names and types as two lists of C strings, with the first type of each name.
pub fn fill_names_and_types(result: &Vec<(String, Vec<String>)>) -> (r: (
    Vec<String>,
    Vec<String>,
))
    ensures
        text::texts(r.0@) == Seq::new(result@.len(), |i: int| as_c_string(result@[i].0@)),
        text::texts(r.1@) == Seq::new(
            result@.len(),
            |i: int| as_c_string(first_type(result@[i].1@)),
        ),
{
    let mut names: Vec<String> = Vec::new();
    let mut types: Vec<String> = Vec::new();
    let mut i: usize = 0;
    while i < result.len()
        invariant
            i <= result@.len(),
            names@.len() == i,
            types@.len() == i,
            forall|k: int| 0 <= k < i ==> (#[trigger] names@[k])@ == as_c_string(result@[k].0@),
            forall|k: int|
                0 <= k < i ==> (#[trigger] types@[k])@ == as_c_string(first_type(result@[k].1@)),
        decreases result@.len() - i,
    {
        names.push(c_string(result[i].0.as_str()));
        let kinds: &Vec<String> = &result[i].1;
        if kinds.len() == 0 {
            types.push(c_string("unknown"));
        } else {
            types.push(c_string(kinds[0].as_str()));
        }
        i += 1;
    }
    proof {
        assert(text::texts(names@) =~= Seq::new(
            result@.len(),
            |i: int| as_c_string(result@[i].0@),
        ));
        assert(text::texts(types@) =~= Seq::new(
            result@.len(),
            |i: int| as_c_string(first_type(result@[i].1@)),
        ));
    }
    (names, types)
}

/// The kind of event that a number of the C interface stands for.
pub fn event_kind_from_ffi(event_kind: u32) -> (r: EventKind)
    ensures
        r == (match event_kind {
            0 => EventKind::LivelinessLost,
            1 => EventKind::LivelinessChanged,
            2 => EventKind::DeadlineMissed,
            3 => EventKind::MessageLost,
            _ => EventKind::RequestedQosCompatibility,
        }),
{
    match event_kind {
        0 => EventKind::LivelinessLost,
        1 => EventKind::LivelinessChanged,
        2 => EventKind::DeadlineMissed,
        3 => EventKind::MessageLost,
        _ => EventKind::RequestedQosCompatibility,
    }
}

/// As much of a text as fits into `len` bytes before the zero that ends it.
pub open spec fn cut_text(s: Seq<char>, len: u32) -> Seq<u8> {
    let b = encode_utf8(s);
    (if b.len() <= len - 1 {
        b
    } else {
        b.subrange(0, len - 1)
    }).push(0)
}

fn cut_text_bytes(s: &str, len: u32) -> (r: Vec<u8>)
    requires
        len >= 1,
    ensures
        r@ == cut_text(s@, len),
{
    let b = s.as_bytes();
    let n: usize = if b.len() <= len as usize - 1 {
        b.len()
    } else {
        len as usize - 1
    };
    let mut out: Vec<u8> = Vec::new();
    append_slice(&mut out, slice_subrange(b, 0, n));
    out.push(0);
    proof {
        assert(b@.subrange(0, b@.len() as int) =~= b@);
        assert(out@ =~= cut_text(s@, len));
    }
    out
}

/// The name and the expression of a content filter, each cut to the caller's buffer.
pub fn axon_session_get_content_filter(
    filter: Option<&ContentFilter>,
    name_len: u32,
    expression_len: u32,
) -> (r: Option<(Vec<u8>, Vec<u8>)>)
    requires
        name_len >= 1,
        expression_len >= 1,
    ensures
        r is Some <==> filter is Some,
        r matches Some(b) ==> b.0@ == cut_text(filter->0.name@, name_len) && b.1@ == cut_text(
            filter->0.expression@,
            expression_len,
        ),
{
    match filter {
        Some(f) => Some(
            (
                cut_text_bytes(f.name.as_str(), name_len),
                cut_text_bytes(f.expression.as_str(), expression_len),
            ),
        ),
        None => None,
    }
}

/// A profile as C callers get it says what it is, policy by policy.
pub proof fn law_profile_is_told(q: QosProfile)
    ensures
        ({
            let o = qos_output(q);
            &&& o.reliability == 1 <==> q.reliability is Reliable
            &&& o.reliability == 0 <==> q.reliability is BestEffort
            &&& o.durability == 1 <==> q.durability is TransientLocal
            &&& o.durability == 0 <==> q.durability is Volatile
            &&& o.history == 1 <==> q.history is KeepLast
            &&& o.history == 0 <==> q.history is KeepAll
            &&& q.history matches HistoryKind::KeepLast { depth } ==> o.depth == depth
            &&& o.liveliness == 1 <==> q.liveliness is ManualByTopic
            &&& o.liveliness == 2 <==> q.liveliness is ManualByParticipant
            &&& o.liveliness == 0 <==> q.liveliness is Automatic || q.liveliness is Unknown
            &&& q.deadline matches Some(d) ==> o.deadline_s == d.secs && o.deadline_ns == d.nanos
            &&& q.deadline is None ==> o.deadline_s == 0 && o.deadline_ns == 0
            &&& q.lifespan matches Some(d) ==> o.lifespan_s == d.secs && o.lifespan_ns == d.nanos
            &&& q.lifespan is None ==> o.lifespan_s == 0 && o.lifespan_ns == 0
            &&& q.liveliness_lease_duration matches Some(d) ==> o.lease_s == d.secs && o.lease_ns
                == d.nanos
            &&& q.liveliness_lease_duration is None ==> o.lease_s == 0 && o.lease_ns == 0
        }),
{
}

/// A profile that a C caller got and gives back is the same profile, but for its limits
/// and for spans that stand for none.
pub proof fn law_told_profile_is_taken_back(q: QosProfile, p: QosProfile)
    requires
        q.wf(),
        q.liveliness !is Unknown,
        q.deadline matches Some(d) ==> 0 < d.total() < i64::MAX,
        q.lifespan matches Some(d) ==> 0 < d.total() < i64::MAX,
        q.liveliness_lease_duration matches Some(d) ==> d.wf() && 0 < d.total() < i64::MAX,
        settings::follows(
            p,
            settings::QosInput {
                reliability: qos_output(q).reliability,
                durability: qos_output(q).durability,
                history_kind: qos_output(q).history,
                depth: 0,
                deadline_s: qos_output(q).deadline_s,
                deadline_ns: qos_output(q).deadline_ns,
                lifespan_s: qos_output(q).lifespan_s,
                lifespan_ns: qos_output(q).lifespan_ns,
                liveliness: qos_output(q).liveliness,
                lease_s: qos_output(q).lease_s,
                lease_ns: qos_output(q).lease_ns,
            },
        ),
    ensures
        p.reliability == q.reliability,
        p.durability == q.durability,
        p.liveliness == q.liveliness,
        p.deadline == q.deadline,
        p.lifespan == q.lifespan,
        p.liveliness_lease_duration == q.liveliness_lease_duration,
{
}

/// The record of an endpoint: its node's name and namespace and its type, each with a
/// zero behind it, its identity, and four numbers of four bytes, the lowest first.
pub proof fn law_record_layout(e: EndpointView)
    ensures
        joined(record_pieces(e)) == encode_utf8(e.node_name) + seq![0u8] + encode_utf8(
            e.node_namespace,
        ) + seq![0u8] + encode_utf8(e.topic_type) + seq![0u8] + e.gid + bytes::le_bytes(
            if e.qos.reliability is Reliable {
                1
            } else {
                0
            },
            4,
        ) + bytes::le_bytes(
            if e.qos.durability is TransientLocal {
                1
            } else {
                0
            },
            4,
        ) + bytes::le_bytes(
            if e.qos.history is KeepLast {
                1
            } else {
                0
            },
            4,
        ) + bytes::le_bytes(
            if e.qos.history is KeepLast {
                e.qos.history->KeepLast_depth as nat % 4_294_967_296
            } else {
                0
            },
            4,
        ),
{
    let p = record_pieces(e);
    reveal_with_fuel(joined, 9);
    let p7 = p.drop_last();
    let p6 = p7.drop_last();
    let p5 = p6.drop_last();
    let p4 = p5.drop_last();
    let p3 = p4.drop_last();
    let p2 = p3.drop_last();
    let p1 = p2.drop_last();
    assert(p1.len() == 1 && p1.drop_last().len() == 0);
    assert(joined(p1) =~= p[0]);
    assert(joined(p2) =~= p[0] + p[1]);
    assert(joined(p3) =~= p[0] + p[1] + p[2]);
    assert(joined(p4) =~= p[0] + p[1] + p[2] + p[3]);
    assert(joined(p) =~= encode_utf8(e.node_name) + seq![0u8] + encode_utf8(e.node_namespace)
        + seq![0u8] + encode_utf8(e.topic_type) + seq![0u8] + p[3] + p[4] + p[5] + p[6] + p[7]);
}

/// As many pieces are written as fit, from the first on: they fit, and with the next one
/// they would not.
pub proof fn law_as_many_pieces_as_fit(pieces: Seq<Seq<u8>>, room: nat)
    ensures
        fitting(pieces, room) <= pieces.len(),
        joined(pieces.subrange(0, fitting(pieces, room) as int)).len() <= room,
        fitting(pieces, room) < pieces.len() ==> joined(
            pieces.subrange(0, fitting(pieces, room) as int + 1),
        ).len() > room,
    decreases pieces.len(),
{
    let k = fitting(pieces, room) as int;
    lemma_fitting(pieces, room);
    if pieces.len() == 0 {
        assert(pieces.subrange(0, 0) =~= Seq::empty());
    } else {
        let init = pieces.drop_last();
        law_as_many_pieces_as_fit(init, room);
        lemma_fitting(init, room);
        let j = fitting(init, room) as int;
        lemma_joined_len(pieces);
        assert(pieces.subrange(0, pieces.len() as int) =~= pieces);
        assert(init.subrange(0, j) =~= pieces.subrange(0, j));
        if j < init.len() {
            assert(init.subrange(0, j + 1) =~= pieces.subrange(0, j + 1));
        }
    }
}

/// A C caller gets everything or nothing: a buffer that is large enough takes all
/// pieces, and one that is not is left alone. How many entries there are is told either
/// way, and without a session nothing is.
pub proof fn law_reply_is_all_or_nothing(
    r: GraphReply,
    pieces: Seq<Seq<u8>>,
    count: nat,
    room: u32,
)
    requires
        is_reply(r, pieces, count, room),
        count <= u32::MAX,
    ensures
        r.count == Some(count as u32),
        r.code == 0 <==> joined(pieces).len() <= room,
        r.code == 0 ==> r.written@ == joined(pieces),
        r.code != 0 ==> r.code == -2 && r.written@.len() == 0,
        r.written@.len() <= room,
        !is_failure(r),
{
    lemma_joined_len(pieces);
}

/// A text for C callers is its bytes and a zero; one that is cut to a buffer fills it at
/// most, ends in a zero and starts as the text does.
pub proof fn law_c_texts_end_in_a_zero(s: Seq<char>, len: u32, i: int)
    requires
        len >= 1,
    ensures
        c_text(s) == encode_utf8(s) + seq![0u8],
        1 <= cut_text(s, len).len() <= len,
        cut_text(s, len).last() == 0,
        0 <= i < cut_text(s, len).len() - 1 ==> cut_text(s, len)[i] == encode_utf8(s)[i],
        encode_utf8(s).len() < len ==> cut_text(s, len) == c_text(s),
        encode_utf8(s).len() >= len ==> cut_text(s, len).len() == len,
        as_c_string(s) == s || (s.contains('\0') && as_c_string(s).len() == 0),
        !s.contains('\0') ==> as_c_string(s) == s,
{
    assert(c_text(s) =~= encode_utf8(s) + seq![0u8]);
}

/// Names are told in their order, each with what goes with it right behind it.
pub proof fn law_names_are_told_in_order(s: Seq<NameView>, i: int)
    requires
        0 <= i < s.len(),
    ensures
        only_names(s).len() == s.len(),
        only_names(s)[i] == s[i].name,
        names_and_kinds(s).len() == 2 * s.len(),
        names_and_kinds(s)[2 * i] == s[i].name,
        names_and_kinds(s)[2 * i + 1] == s[i].kind,
    decreases s.len(),
{
    let init = s.drop_last();
    if init.len() == 0 {
        assert(names_and_kinds(init).len() == 0);
    } else {
        law_names_are_told_in_order(init, if i < init.len() {
            i
        } else {
            0
        });
    }
}

/// The type of a topic is that of the first entry of its name, and there is none where
/// no entry has the name.
pub proof fn law_type_of_topic_exactly(topics: Seq<NameView>, name: Seq<char>, i: int)
    requires
        0 <= i < topics.len(),
    ensures
        topics[i].name == name && (forall|k: int|
            0 <= k < i ==> (#[trigger] topics[k]).name != name) ==> type_of_topic(topics, name)
            == Some(topics[i].kind),
        (forall|k: int| 0 <= k < topics.len() ==> (#[trigger] topics[k]).name != name)
            ==> type_of_topic(topics, name) is None,
    decreases topics.len(),
{
    let rest = topics.subrange(1, topics.len() as int);
    if rest.len() == 0 {
        assert(type_of_topic(rest, name) is None);
    } else {
        law_type_of_topic_exactly(rest, name, if i > 0 {
            i - 1
        } else {
            0
        });
    }
    if topics[i].name == name && (forall|k: int|
        0 <= k < i ==> (#[trigger] topics[k]).name != name) && i > 0 {
        assert(topics[0].name != name);
        assert(rest[i - 1] == topics[i]);
        assert forall|k: int| 0 <= k < i - 1 implies (#[trigger] rest[k]).name != name by {
            assert(rest[k] == topics[k + 1]);
        }
    }
    if forall|k: int| 0 <= k < topics.len() ==> (#[trigger] topics[k]).name != name {
        assert(topics[0].name != name);
        assert forall|k: int| 0 <= k < rest.len() implies (#[trigger] rest[k]).name != name by {
            assert(rest[k] == topics[k + 1]);
        }
    }
}

/// The records of endpoints stand one behind the other in the order of the endpoints, and
/// each takes as many bytes as it is said to.
pub proof fn law_records_in_order(a: Seq<EndpointView>, b: Seq<EndpointView>, e: EndpointView)
    ensures
        all_pieces(a + b) == all_pieces(a) + all_pieces(b),
        all_pieces(seq![e]) == record_pieces(e),
        record_len(e) == joined(record_pieces(e)).len(),
    decreases b.len(),
{
    lemma_joined_len(record_pieces(e));
    assert(seq![e].drop_last() =~= Seq::empty());
    assert(all_pieces(Seq::empty()) =~= Seq::empty());
    assert(all_pieces(seq![e]) =~= record_pieces(e));
    if b.len() == 0 {
        assert(a + b =~= a);
        assert(all_pieces(a) + all_pieces(b) =~= all_pieces(a));
    } else {
        law_records_in_order(a, b.drop_last(), e);
        assert((a + b).drop_last() =~= a + b.drop_last());
        assert(all_pieces(a + b) =~= all_pieces(a) + all_pieces(b));
    }
}

} // verus!
