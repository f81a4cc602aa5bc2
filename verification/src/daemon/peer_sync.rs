//! How two daemons tell each other of their nodes: the messages and the merge into
//! the node table.
use vstd::prelude::*;
use vstd::utf8::*;

#[allow(unused_imports)]
use crate::bytes;
use crate::bytes::{
    append_slice, from_two_complement, push_le, read_le, to_two_complement,
};
use crate::daemon::discovery_shm::MAX_QUIC_ADDRS;
use crate::duration::Duration;
use crate::text::utf8_text;

verus! {

pub const PEER_HEARTBEAT_MS: u64 = 10000;

pub const PEER_TIMEOUT_MS: u64 = 30000;

pub const MSG_SYNC_REQUEST: u8 = 0x01;

pub const MSG_SYNC_RESPONSE: u8 = 0x02;

pub const MSG_PING: u8 = 0x04;

pub const MSG_PONG: u8 = 0x05;

/// A topic as one daemon reports it to another.
#[derive(Debug, Clone)]
pub struct PeerTopicInfo {
    pub hash: u64,
    pub type_hash: u64,
    pub qos_reliability: u8,
    pub qos_durability: u8,
    pub qos_history_kind: u8,
    pub qos_history_depth: i32,
    pub qos_deadline_sec: u32,
    pub qos_deadline_nsec: u32,
    pub qos_lifespan_sec: u32,
    pub qos_lifespan_nsec: u32,
    pub qos_liveliness: u8,
    pub qos_liveliness_lease_sec: u32,
    pub qos_liveliness_lease_nsec: u32,
    pub name: String,
    pub topic_type: String,
    pub node_name: String,
    pub node_namespace: String,
}

/// A reported topic with its texts as character sequences.
#[verifier::ext_equal]
pub struct TopicInfoView {
    pub hash: u64,
    pub type_hash: u64,
    pub qos_reliability: u8,
    pub qos_durability: u8,
    pub qos_history_kind: u8,
    pub qos_history_depth: i32,
    pub qos_deadline_sec: u32,
    pub qos_deadline_nsec: u32,
    pub qos_lifespan_sec: u32,
    pub qos_lifespan_nsec: u32,
    pub qos_liveliness: u8,
    pub qos_liveliness_lease_sec: u32,
    pub qos_liveliness_lease_nsec: u32,
    pub name: Seq<char>,
    pub topic_type: Seq<char>,
    pub node_name: Seq<char>,
    pub node_namespace: Seq<char>,
}

impl View for PeerTopicInfo {
    type V = TopicInfoView;

    open spec fn view(&self) -> TopicInfoView {
        TopicInfoView {
            hash: self.hash,
            type_hash: self.type_hash,
            qos_reliability: self.qos_reliability,
            qos_durability: self.qos_durability,
            qos_history_kind: self.qos_history_kind,
            qos_history_depth: self.qos_history_depth,
            qos_deadline_sec: self.qos_deadline_sec,
            qos_deadline_nsec: self.qos_deadline_nsec,
            qos_lifespan_sec: self.qos_lifespan_sec,
            qos_lifespan_nsec: self.qos_lifespan_nsec,
            qos_liveliness: self.qos_liveliness,
            qos_liveliness_lease_sec: self.qos_liveliness_lease_sec,
            qos_liveliness_lease_nsec: self.qos_liveliness_lease_nsec,
            name: self.name@,
            topic_type: self.topic_type@,
            node_name: self.node_name@,
            node_namespace: self.node_namespace@,
        }
    }
}

/// A node as one daemon reports it to another.
#[derive(Debug, Clone)]
pub struct PeerNodeInfo {
    pub node_id: u64,
    pub domain_id: u32,
    pub published_topics: Vec<PeerTopicInfo>,
    pub subscribed_topics: Vec<PeerTopicInfo>,
    pub quic_port: u16,
    pub quic_addrs: Vec<[u8; 4]>,
    pub node_name: String,
    pub node_namespace: String,
}

/// A reported node with its lists and texts as sequences.
#[verifier::ext_equal]
pub struct NodeInfoView {
    pub node_id: u64,
    pub domain_id: u32,
    pub published_topics: Seq<TopicInfoView>,
    pub subscribed_topics: Seq<TopicInfoView>,
    pub quic_port: u16,
    pub quic_addrs: Seq<[u8; 4]>,
    pub node_name: Seq<char>,
    pub node_namespace: Seq<char>,
}

/// The views of reported topics.
pub open spec fn infos_view(topics: Seq<PeerTopicInfo>) -> Seq<TopicInfoView> {
    topics.map_values(|t: PeerTopicInfo| t@)
}

/// The views of reported nodes.
pub open spec fn nodes_view(nodes: Seq<PeerNodeInfo>) -> Seq<NodeInfoView> {
    nodes.map_values(|n: PeerNodeInfo| n@)
}

impl View for PeerNodeInfo {
    type V = NodeInfoView;

    open spec fn view(&self) -> NodeInfoView {
        NodeInfoView {
            node_id: self.node_id,
            domain_id: self.domain_id,
            published_topics: infos_view(self.published_topics@),
            subscribed_topics: infos_view(self.subscribed_topics@),
            quic_port: self.quic_port,
            quic_addrs: self.quic_addrs@,
            node_name: self.node_name@,
            node_namespace: self.node_namespace@,
        }
    }
}

/// A text on the wire: its length in two bytes, then its UTF-8 bytes.
pub open spec fn text_bytes(s: Seq<char>) -> Seq<u8> {
    bytes::le_bytes(encode_utf8(s).len(), 2) + encode_utf8(s)
}

/// The 48 bytes that open a topic on the wire.
pub open spec fn topic_head(t: TopicInfoView) -> Seq<u8> {
    bytes::le_bytes(t.hash as nat, 8) + bytes::le_bytes(t.type_hash as nat, 8)
        + seq![t.qos_reliability, t.qos_durability, t.qos_history_kind]
        + bytes::le_bytes(bytes::two_complement_32(t.qos_history_depth), 4)
        + bytes::le_bytes(t.qos_deadline_sec as nat, 4) + bytes::le_bytes(
        t.qos_deadline_nsec as nat,
        4,
    ) + bytes::le_bytes(t.qos_lifespan_sec as nat, 4) + bytes::le_bytes(
        t.qos_lifespan_nsec as nat,
        4,
    ) + seq![t.qos_liveliness] + bytes::le_bytes(t.qos_liveliness_lease_sec as nat, 4)
        + bytes::le_bytes(t.qos_liveliness_lease_nsec as nat, 4)
}

/// A topic on the wire.
pub open spec fn topic_bytes(t: TopicInfoView) -> Seq<u8> {
    topic_head(t) + text_bytes(t.name) + text_bytes(t.topic_type) + text_bytes(t.node_name)
        + text_bytes(t.node_namespace)
}

/// Topics on the wire, one behind the other.
pub open spec fn topics_bytes(ts: Seq<TopicInfoView>) -> Seq<u8>
    decreases ts.len(),
{
    if ts.len() == 0 {
        Seq::empty()
    } else {
        topics_bytes(ts.drop_last()) + topic_bytes(ts.last())
    }
}

/// Addresses on the wire, one behind the other.
pub open spec fn addrs_bytes(addrs: Seq<[u8; 4]>) -> Seq<u8>
    decreases addrs.len(),
{
    if addrs.len() == 0 {
        Seq::empty()
    } else {
        addrs_bytes(addrs.drop_last()) + addrs.last()@
    }
}

/// A node on the wire.
pub open spec fn node_bytes(n: NodeInfoView) -> Seq<u8> {
    bytes::le_bytes(n.node_id as nat, 8) + bytes::le_bytes(n.domain_id as nat, 4) + text_bytes(
        n.node_name,
    ) + text_bytes(n.node_namespace) + bytes::le_bytes(n.published_topics.len(), 4)
        + topics_bytes(n.published_topics) + bytes::le_bytes(n.subscribed_topics.len(), 4)
        + topics_bytes(n.subscribed_topics) + bytes::le_bytes(n.quic_port as nat, 2)
        + bytes::le_bytes(n.quic_addrs.len(), 4) + addrs_bytes(n.quic_addrs)
}

/// Nodes on the wire, one behind the other.
pub open spec fn nodes_bytes(ns: Seq<NodeInfoView>) -> Seq<u8>
    decreases ns.len(),
{
    if ns.len() == 0 {
        Seq::empty()
    } else {
        nodes_bytes(ns.drop_last()) + node_bytes(ns.last())
    }
}

/// A request for the nodes of a domain.
pub open spec fn request_bytes(domain_id: u32) -> Seq<u8> {
    seq![MSG_SYNC_REQUEST] + bytes::le_bytes(domain_id as nat, 4)
}

/// An answer with the nodes of a domain.
pub open spec fn response_bytes(domain_id: u32, ns: Seq<NodeInfoView>) -> Seq<u8> {
    seq![MSG_SYNC_RESPONSE] + bytes::le_bytes(domain_id as nat, 4) + bytes::le_bytes(ns.len(), 4)
        + nodes_bytes(ns)
}

/// Appending twice is appending the two parts as one.
proof fn lemma_glue(before: Seq<u8>, a: Seq<u8>, b: Seq<u8>)
    ensures
        (before + a) + b == before + (a + b),
{
    assert((before + a) + b =~= before + (a + b));
}

fn push_text(buf: &mut Vec<u8>, s: &str)
    ensures
        final(buf)@ == old(buf)@ + text_bytes(s@),
{
    let b = s.as_bytes();
    push_le(buf, b.len() as u64, 2);
    append_slice(buf, b);
    proof {
        assert(buf@ =~= old(buf)@ + text_bytes(s@));
    }
}

fn push_topic(buf: &mut Vec<u8>, topic: &PeerTopicInfo)
    ensures
        final(buf)@ == old(buf)@ + topic_bytes(topic@),
{
    let ghost before = buf@;
    push_topic_head(buf, topic);
    let ghost mut acc = topic_head(topic@);
    push_text(buf, &topic.name);
    proof {
        lemma_glue(before, acc, text_bytes(topic.name@));
        acc = acc + text_bytes(topic.name@);
    }
    push_text(buf, &topic.topic_type);
    proof {
        lemma_glue(before, acc, text_bytes(topic.topic_type@));
        acc = acc + text_bytes(topic.topic_type@);
    }
    push_text(buf, &topic.node_name);
    proof {
        lemma_glue(before, acc, text_bytes(topic.node_name@));
        acc = acc + text_bytes(topic.node_name@);
    }
    push_text(buf, &topic.node_namespace);
    proof {
        lemma_glue(before, acc, text_bytes(topic.node_namespace@));
    }
}

#[verifier::spinoff_prover]
fn push_topic_head(buf: &mut Vec<u8>, topic: &PeerTopicInfo)
    ensures
        final(buf)@ == old(buf)@ + topic_head(topic@),
{
    push_le(buf, topic.hash, 8);
    push_le(buf, topic.type_hash, 8);
    buf.push(topic.qos_reliability);
    buf.push(topic.qos_durability);
    buf.push(topic.qos_history_kind);
    push_le(buf, to_two_complement(topic.qos_history_depth) as u64, 4);
    push_le(buf, topic.qos_deadline_sec as u64, 4);
    push_le(buf, topic.qos_deadline_nsec as u64, 4);
    push_le(buf, topic.qos_lifespan_sec as u64, 4);
    push_le(buf, topic.qos_lifespan_nsec as u64, 4);
    buf.push(topic.qos_liveliness);
    push_le(buf, topic.qos_liveliness_lease_sec as u64, 4);
    push_le(buf, topic.qos_liveliness_lease_nsec as u64, 4);
    proof {
        assert(buf@ =~= old(buf)@ + topic_head(topic@));
    }
}

fn push_topics(buf: &mut Vec<u8>, topics: &[PeerTopicInfo])
    ensures
        final(buf)@ == old(buf)@ + topics_bytes(infos_view(topics@)),
{
    let ghost view = infos_view(topics@);
    let ghost before = buf@;
    let mut i: usize = 0;
    proof {
        assert(view.subrange(0, 0) =~= Seq::empty());
        assert(buf@ =~= before + topics_bytes(view.subrange(0, 0)));
    }
    while i < topics.len()
        invariant
            i <= topics@.len(),
            view == infos_view(topics@),
            buf@ == before + topics_bytes(view.subrange(0, i as int)),
        decreases topics@.len() - i,
    {
        proof {
            assert(view.subrange(0, i + 1).drop_last() =~= view.subrange(0, i as int));
            assert(view.subrange(0, i + 1).last() == topics@[i as int]@);
        }
        push_topic(buf, &topics[i]);
        i += 1;
        proof {
            assert(buf@ =~= before + topics_bytes(view.subrange(0, i as int)));
        }
    }
    proof {
        assert(view.subrange(0, i as int) =~= view);
    }
}

fn push_addrs(buf: &mut Vec<u8>, addrs: &[[u8; 4]])
    ensures
        final(buf)@ == old(buf)@ + addrs_bytes(addrs@),
{
    let ghost before = buf@;
    let mut i: usize = 0;
    proof {
        assert(addrs@.subrange(0, 0) =~= Seq::empty());
        assert(buf@ =~= before + addrs_bytes(addrs@.subrange(0, 0)));
    }
    while i < addrs.len()
        invariant
            i <= addrs@.len(),
            buf@ == before + addrs_bytes(addrs@.subrange(0, i as int)),
        decreases addrs@.len() - i,
    {
        proof {
            assert(addrs@.subrange(0, i + 1).drop_last() =~= addrs@.subrange(0, i as int));
        }
        append_slice(buf, addrs[i].as_slice());
        i += 1;
        proof {
            assert(buf@ =~= before + addrs_bytes(addrs@.subrange(0, i as int)));
        }
    }
    proof {
        assert(addrs@.subrange(0, i as int) =~= addrs@);
    }
}

fn push_node(buf: &mut Vec<u8>, node: &PeerNodeInfo)
    ensures
        final(buf)@ == old(buf)@ + node_bytes(node@),
{
    let ghost before = buf@;
    let ghost n = node@;
    let ghost mut acc = bytes::le_bytes(n.node_id as nat, 8);
    push_le(buf, node.node_id, 8);
    push_le(buf, node.domain_id as u64, 4);
    proof {
        lemma_glue(before, acc, bytes::le_bytes(n.domain_id as nat, 4));
        acc = acc + bytes::le_bytes(n.domain_id as nat, 4);
    }
    push_text(buf, &node.node_name);
    proof {
        lemma_glue(before, acc, text_bytes(n.node_name));
        acc = acc + text_bytes(n.node_name);
    }
    push_text(buf, &node.node_namespace);
    proof {
        lemma_glue(before, acc, text_bytes(n.node_namespace));
        acc = acc + text_bytes(n.node_namespace);
    }
    push_le(buf, node.published_topics.len() as u64, 4);
    proof {
        lemma_glue(before, acc, bytes::le_bytes(n.published_topics.len(), 4));
        acc = acc + bytes::le_bytes(n.published_topics.len(), 4);
    }
    push_topics(buf, &node.published_topics);
    proof {
        lemma_glue(before, acc, topics_bytes(n.published_topics));
        acc = acc + topics_bytes(n.published_topics);
    }
    push_le(buf, node.subscribed_topics.len() as u64, 4);
    proof {
        lemma_glue(before, acc, bytes::le_bytes(n.subscribed_topics.len(), 4));
        acc = acc + bytes::le_bytes(n.subscribed_topics.len(), 4);
    }
    push_topics(buf, &node.subscribed_topics);
    proof {
        lemma_glue(before, acc, topics_bytes(n.subscribed_topics));
        acc = acc + topics_bytes(n.subscribed_topics);
    }
    push_le(buf, node.quic_port as u64, 2);
    proof {
        lemma_glue(before, acc, bytes::le_bytes(n.quic_port as nat, 2));
        acc = acc + bytes::le_bytes(n.quic_port as nat, 2);
    }
    push_le(buf, node.quic_addrs.len() as u64, 4);
    proof {
        lemma_glue(before, acc, bytes::le_bytes(n.quic_addrs.len(), 4));
        acc = acc + bytes::le_bytes(n.quic_addrs.len(), 4);
    }
    push_addrs(buf, &node.quic_addrs);
    proof {
        lemma_glue(before, acc, addrs_bytes(n.quic_addrs));
    }
}

/// A request for the nodes of a domain.
pub fn encode_sync_request(domain_id: u32) -> (r: Vec<u8>)
    ensures
        r@ == request_bytes(domain_id),
{
    let mut buf: Vec<u8> = Vec::new();
    buf.push(MSG_SYNC_REQUEST);
    push_le(&mut buf, domain_id as u64, 4);
    proof {
        assert(buf@ =~= request_bytes(domain_id));
    }
    buf
}

/// An answer with the nodes of a domain.
pub fn encode_sync_response(domain_id: u32, nodes: &[PeerNodeInfo]) -> (r: Vec<u8>)
    ensures
        r@ == response_bytes(domain_id, nodes_view(nodes@)),
{
    let ghost view = nodes_view(nodes@);
    let mut buf: Vec<u8> = Vec::new();
    buf.push(MSG_SYNC_RESPONSE);
    push_le(&mut buf, domain_id as u64, 4);
    push_le(&mut buf, nodes.len() as u64, 4);
    let ghost before = buf@;
    let mut i: usize = 0;
    proof {
        assert(before =~= seq![MSG_SYNC_RESPONSE] + bytes::le_bytes(domain_id as nat, 4)
            + bytes::le_bytes(view.len(), 4));
        assert(view.subrange(0, 0) =~= Seq::empty());
        assert(buf@ =~= before + nodes_bytes(view.subrange(0, 0)));
    }
    while i < nodes.len()
        invariant
            i <= nodes@.len(),
            view == nodes_view(nodes@),
            buf@ == before + nodes_bytes(view.subrange(0, i as int)),
        decreases nodes@.len() - i,
    {
        proof {
            assert(view.subrange(0, i + 1).drop_last() =~= view.subrange(0, i as int));
            assert(view.subrange(0, i + 1).last() == nodes@[i as int]@);
        }
        push_node(&mut buf, &nodes[i]);
        i += 1;
        proof {
            assert(buf@ =~= before + nodes_bytes(view.subrange(0, i as int)));
        }
    }
    proof {
        assert(view.subrange(0, i as int) =~= view);
        assert(buf@ =~= response_bytes(domain_id, view));
    }
    buf
}

/// A request for the nodes of a domain that also brings the sender's own nodes.
pub fn encode_sync_request_with_nodes(domain_id: u32, daemon_id: u64, nodes: &[PeerNodeInfo]) -> (r:
    Vec<u8>)
    ensures
        r@ == request_bytes(domain_id) + bytes::le_bytes(daemon_id as nat, 8) + response_bytes(
            domain_id,
            nodes_view(nodes@),
        ),
{
    let mut buf = encode_sync_request(domain_id);
    push_le(&mut buf, daemon_id, 8);
    let answer = encode_sync_response(domain_id, nodes);
    append_slice(&mut buf, &answer);
    buf
}

/// A heartbeat.
pub fn encode_ping() -> (r: Vec<u8>)
    ensures
        r@ == seq![MSG_PING],
        r@.len() == 1 && r@[0] == 4,
{
    let r = vec![MSG_PING];
    proof {
        assert(r@ =~= seq![MSG_PING]);
    }
    r
}

/// The answer to a heartbeat.
pub fn encode_pong() -> (r: Vec<u8>)
    ensures
        r@ == seq![MSG_PONG],
        r@.len() == 1 && r@[0] == 5,
{
    let r = vec![MSG_PONG];
    proof {
        assert(r@ =~= seq![MSG_PONG]);
    }
    r
}

/// Whether `buf` opens as a request does.
pub open spec fn is_request(buf: Seq<u8>) -> bool {
    buf.len() >= 5 && buf[0] == MSG_SYNC_REQUEST
}

/// The domain that a request asks for.
pub fn decode_sync_request(buf: &[u8]) -> (r: Result<u32, &'static str>)
    ensures
        match r {
            Ok(domain_id) => is_request(buf@) && domain_id == bytes::le_value(buf@.subrange(1, 5)),
            Err(e) => !is_request(buf@) && e@ == "bad sync request"@,
        },
{
    if buf.len() < 5 || buf[0] != MSG_SYNC_REQUEST {
        return Err("bad sync request");
    }
    proof {
        bytes::lemma_byte_range_values();
    }
    Ok(read_le(buf, 1, 4) as u32)
}

/// The daemon that a request comes from. A bare request does not say.
pub fn sync_request_daemon_id(buf: &[u8]) -> (r: Result<Option<u64>, &'static str>)
    ensures
        match r {
            Ok(None) => is_request(buf@) && buf@.len() == 5,
            Ok(Some(id)) => is_request(buf@) && buf@.len() >= 13 && id == bytes::le_value(
                buf@.subrange(5, 13),
            ),
            Err(e) => if is_request(buf@) {
                5 < buf@.len() < 13 && e@ == "truncated sync request daemon id"@
            } else {
                e@ == "bad sync request"@
            },
        },
{
    if buf.len() < 5 || buf[0] != MSG_SYNC_REQUEST {
        return Err("bad sync request");
    }
    if buf.len() == 5 {
        return Ok(None);
    }
    if buf.len() < 13 {
        return Err("truncated sync request daemon id");
    }
    Ok(Some(read_le(buf, 5, 8)))
}

/// What is read at an offset, and the offset behind it, or why it cannot be read.
pub type Parsed<T> = Result<(T, int), Seq<char>>;

/// The number in the `n` bytes at `off`.
pub open spec fn number_at(buf: Seq<u8>, off: int, n: int) -> nat {
    bytes::le_value(buf.subrange(off, off + n))
}

/// The text at `off`.
pub open spec fn text_at(buf: Seq<u8>, off: int) -> Parsed<Seq<char>> {
    if off + 2 > buf.len() {
        Err("truncated len"@)
    } else {
        let len = number_at(buf, off, 2) as int;
        if off + 2 + len > buf.len() {
            Err("truncated string"@)
        } else if !valid_utf8(buf.subrange(off + 2, off + 2 + len)) {
            Err("bad utf8"@)
        } else {
            Ok((decode_utf8(buf.subrange(off + 2, off + 2 + len)), off + 2 + len))
        }
    }
}

/// The fields in the 48 bytes at `off`, and the given texts.
pub open spec fn topic_with(
    buf: Seq<u8>,
    off: int,
    name: Seq<char>,
    topic_type: Seq<char>,
    node_name: Seq<char>,
    node_namespace: Seq<char>,
) -> TopicInfoView {
    TopicInfoView {
        hash: number_at(buf, off, 8) as u64,
        type_hash: number_at(buf, off + 8, 8) as u64,
        qos_reliability: buf[off + 16],
        qos_durability: buf[off + 17],
        qos_history_kind: buf[off + 18],
        qos_history_depth: bytes::signed_32(number_at(buf, off + 19, 4)) as i32,
        qos_deadline_sec: number_at(buf, off + 23, 4) as u32,
        qos_deadline_nsec: number_at(buf, off + 27, 4) as u32,
        qos_lifespan_sec: number_at(buf, off + 31, 4) as u32,
        qos_lifespan_nsec: number_at(buf, off + 35, 4) as u32,
        qos_liveliness: buf[off + 39],
        qos_liveliness_lease_sec: number_at(buf, off + 40, 4) as u32,
        qos_liveliness_lease_nsec: number_at(buf, off + 44, 4) as u32,
        name,
        topic_type,
        node_name,
        node_namespace,
    }
}

/// The topic at `off`.
pub open spec fn topic_at(buf: Seq<u8>, off: int) -> Parsed<TopicInfoView> {
    if off + 48 > buf.len() {
        Err("truncated topic"@)
    } else {
        match text_at(buf, off + 48) {
            Err(e) => Err(e),
            Ok((name, o1)) => match text_at(buf, o1) {
                Err(e) => Err(e),
                Ok((topic_type, o2)) => match text_at(buf, o2) {
                    Err(e) => Err(e),
                    Ok((node_name, o3)) => match text_at(buf, o3) {
                        Err(e) => Err(e),
                        Ok((node_namespace, o4)) => Ok(
                            (
                                topic_with(
                                    buf,
                                    off,
                                    name,
                                    topic_type,
                                    node_name,
                                    node_namespace,
                                ),
                                o4,
                            ),
                        ),
                    },
                },
            },
        }
    }
}

/// The `n` topics at `off`, one behind the other.
pub open spec fn topics_at(buf: Seq<u8>, off: int, n: nat) -> Parsed<Seq<TopicInfoView>>
    decreases n,
{
    if n == 0 {
        Ok((Seq::empty(), off))
    } else {
        match topics_at(buf, off, (n - 1) as nat) {
            Err(e) => Err(e),
            Ok((ts, o)) => match topic_at(buf, o) {
                Err(e) => Err(e),
                Ok((t, o2)) => Ok((ts.push(t), o2)),
            },
        }
    }
}

/// The four bytes at `off` as an address.
pub open spec fn addr_at(buf: Seq<u8>, off: int) -> [u8; 4] {
    [buf[off], buf[off + 1], buf[off + 2], buf[off + 3]]
}

/// The list of topics at `off`: its length, then the topics.
pub open spec fn counted_topics_at(buf: Seq<u8>, off: int, short: Seq<char>) -> Parsed<
    Seq<TopicInfoView>,
> {
    if off + 4 > buf.len() {
        Err(short)
    } else {
        topics_at(buf, off + 4, number_at(buf, off, 4))
    }
}

/// How many of `n` addresses are read.
pub open spec fn addr_limit(n: nat) -> int {
    if n <= MAX_QUIC_ADDRS {
        n as int
    } else {
        MAX_QUIC_ADDRS as int
    }
}

/// The node at `off`.
pub open spec fn node_at(buf: Seq<u8>, off: int) -> Parsed<NodeInfoView> {
    if off + 12 > buf.len() {
        Err("truncated node header"@)
    } else {
        match text_at(buf, off + 12) {
            Err(e) => Err(e),
            Ok((node_name, o1)) => match text_at(buf, o1) {
                Err(e) => Err(e),
                Ok((node_namespace, o2)) => match counted_topics_at(
                    buf,
                    o2,
                    "truncated pub count"@,
                ) {
                    Err(e) => Err(e),
                    Ok((published_topics, o3)) => match counted_topics_at(
                        buf,
                        o3,
                        "truncated sub count"@,
                    ) {
                        Err(e) => Err(e),
                        Ok((subscribed_topics, o4)) => if o4 + 6 > buf.len() {
                            Err("truncated endpoint"@)
                        } else {
                            let limit = addr_limit(number_at(buf, o4 + 2, 4));
                            if o4 + 6 + limit * 4 > buf.len() {
                                Err("truncated addrs"@)
                            } else {
                                Ok(
                                    (
                                        NodeInfoView {
                                            node_id: number_at(buf, off, 8) as u64,
                                            domain_id: number_at(buf, off + 8, 4) as u32,
                                            published_topics,
                                            subscribed_topics,
                                            quic_port: number_at(buf, o4, 2) as u16,
                                            quic_addrs: Seq::new(
                                                limit as nat,
                                                |k: int| addr_at(buf, o4 + 6 + 4 * k),
                                            ),
                                            node_name,
                                            node_namespace,
                                        },
                                        o4 + 6 + limit * 4,
                                    ),
                                )
                            }
                        },
                    },
                },
            },
        }
    }
}

/// The `n` nodes at `off`, one behind the other.
pub open spec fn nodes_at(buf: Seq<u8>, off: int, n: nat) -> Parsed<Seq<NodeInfoView>>
    decreases n,
{
    if n == 0 {
        Ok((Seq::empty(), off))
    } else {
        match nodes_at(buf, off, (n - 1) as nat) {
            Err(e) => Err(e),
            Ok((ns, o)) => match node_at(buf, o) {
                Err(e) => Err(e),
                Ok((x, o2)) => Ok((ns.push(x), o2)),
            },
        }
    }
}

/// What an answer says: its domain and its nodes, or why it cannot be read. Bytes
/// behind the last node are ignored.
pub open spec fn response_value(buf: Seq<u8>) -> Result<(u32, Seq<NodeInfoView>), Seq<char>> {
    if buf.len() < 9 || buf[0] != MSG_SYNC_RESPONSE {
        Err("bad sync response"@)
    } else {
        match nodes_at(buf, 9, number_at(buf, 5, 4)) {
            Err(e) => Err(e),
            Ok((ns, _)) => Ok((number_at(buf, 1, 4) as u32, ns)),
        }
    }
}

fn read_string(buf: &[u8], off: usize) -> (r: Result<(String, usize), &'static str>)
    requires
        off <= buf@.len(),
    ensures
        match r {
            Ok((s, o)) => text_at(buf@, off as int) == Ok::<(Seq<char>, int), Seq<char>>(
                (s@, o as int),
            ) && off <= o <= buf@.len(),
            Err(e) => text_at(buf@, off as int) == Err::<(Seq<char>, int), Seq<char>>(e@),
        },
{
    if buf.len() - off < 2 {
        return Err("truncated len");
    }
    proof {
        bytes::lemma_byte_range_values();
    }
    let len: usize = read_le(buf, off, 2) as usize;
    let start: usize = off + 2;
    if buf.len() - start < len {
        return Err("truncated string");
    }
    let part = vstd::slice::slice_subrange(buf, start, start + len);
    match utf8_text(part) {
        Some(s) => Ok((s.to_owned(), start + len)),
        None => Err("bad utf8"),
    }
}

fn read_topic(buf: &[u8], off: usize) -> (r: Result<(PeerTopicInfo, usize), &'static str>)
    requires
        off <= buf@.len(),
    ensures
        match r {
            Ok((t, o)) => topic_at(buf@, off as int) == Ok::<(TopicInfoView, int), Seq<char>>(
                (t@, o as int),
            ) && off < o <= buf@.len(),
            Err(e) => topic_at(buf@, off as int) == Err::<(TopicInfoView, int), Seq<char>>(e@),
        },
{
    if buf.len() - off < 48 {
        return Err("truncated topic");
    }
    proof {
        bytes::lemma_byte_range_values();
    }
    let hash: u64 = read_le(buf, off, 8);
    let type_hash: u64 = read_le(buf, off + 8, 8);
    let qos_reliability: u8 = buf[off + 16];
    let qos_durability: u8 = buf[off + 17];
    let qos_history_kind: u8 = buf[off + 18];
    let qos_history_depth: i32 = from_two_complement(read_le(buf, off + 19, 4) as u32);
    let qos_deadline_sec: u32 = read_le(buf, off + 23, 4) as u32;
    let qos_deadline_nsec: u32 = read_le(buf, off + 27, 4) as u32;
    let qos_lifespan_sec: u32 = read_le(buf, off + 31, 4) as u32;
    let qos_lifespan_nsec: u32 = read_le(buf, off + 35, 4) as u32;
    let qos_liveliness: u8 = buf[off + 39];
    let qos_liveliness_lease_sec: u32 = read_le(buf, off + 40, 4) as u32;
    let qos_liveliness_lease_nsec: u32 = read_le(buf, off + 44, 4) as u32;
    let (name, o1) = match read_string(buf, off + 48) {
        Ok(x) => x,
        Err(e) => {
            return Err(e);
        },
    };
    let (topic_type, o2) = match read_string(buf, o1) {
        Ok(x) => x,
        Err(e) => {
            return Err(e);
        },
    };
    let (node_name, o3) = match read_string(buf, o2) {
        Ok(x) => x,
        Err(e) => {
            return Err(e);
        },
    };
    let (node_namespace, o4) = match read_string(buf, o3) {
        Ok(x) => x,
        Err(e) => {
            return Err(e);
        },
    };
    let t = PeerTopicInfo {
        hash,
        type_hash,
        qos_reliability,
        qos_durability,
        qos_history_kind,
        qos_history_depth,
        qos_deadline_sec,
        qos_deadline_nsec,
        qos_lifespan_sec,
        qos_lifespan_nsec,
        qos_liveliness,
        qos_liveliness_lease_sec,
        qos_liveliness_lease_nsec,
        name,
        topic_type,
        node_name,
        node_namespace,
    };
    proof {
        assert(t@ =~= topic_with(
            buf@,
            off as int,
            name@,
            topic_type@,
            node_name@,
            node_namespace@,
        ));
    }
    Ok((t, o4))
}

/// Once a topic cannot be read, the list cannot.
proof fn lemma_topics_fail(buf: Seq<u8>, off: int, k: nat, n: nat)
    requires
        k <= n,
        topics_at(buf, off, k) is Err,
    ensures
        topics_at(buf, off, n) == topics_at(buf, off, k),
    decreases n,
{
    if k < n {
        lemma_topics_fail(buf, off, k, (n - 1) as nat);
    }
}

/// Once a node cannot be read, the list cannot.
proof fn lemma_nodes_fail(buf: Seq<u8>, off: int, k: nat, n: nat)
    requires
        k <= n,
        nodes_at(buf, off, k) is Err,
    ensures
        nodes_at(buf, off, n) == nodes_at(buf, off, k),
    decreases n,
{
    if k < n {
        lemma_nodes_fail(buf, off, k, (n - 1) as nat);
    }
}

fn read_topics(buf: &[u8], off: usize, count: u32) -> (r: Result<
    (Vec<PeerTopicInfo>, usize),
    &'static str,
>)
    requires
        off <= buf@.len(),
    ensures
        match r {
            Ok((ts, o)) => topics_at(buf@, off as int, count as nat) == Ok::<
                (Seq<TopicInfoView>, int),
                Seq<char>,
            >((infos_view(ts@), o as int)) && off <= o <= buf@.len(),
            Err(e) => topics_at(buf@, off as int, count as nat) == Err::<
                (Seq<TopicInfoView>, int),
                Seq<char>,
            >(e@),
        },
{
    let mut topics: Vec<PeerTopicInfo> = Vec::new();
    let mut o: usize = off;
    let mut k: u32 = 0;
    proof {
        assert(infos_view(topics@) =~= Seq::empty());
    }
    while k < count
        invariant
            k <= count,
            off <= o <= buf@.len(),
            topics_at(buf@, off as int, k as nat) == Ok::<(Seq<TopicInfoView>, int), Seq<char>>(
                (infos_view(topics@), o as int),
            ),
        decreases count - k,
    {
        let ghost before = topics@;
        match read_topic(buf, o) {
            Ok((t, next)) => {
                topics.push(t);
                o = next;
                proof {
                    assert(infos_view(topics@) =~= infos_view(before).push(t@));
                }
            },
            Err(e) => {
                proof {
                    lemma_topics_fail(buf@, off as int, (k + 1) as nat, count as nat);
                }
                return Err(e);
            },
        }
        k += 1;
    }
    Ok((topics, o))
}

fn read_counted_topics(buf: &[u8], off: usize, short: &'static str) -> (r: Result<
    (Vec<PeerTopicInfo>, usize),
    &'static str,
>)
    requires
        off <= buf@.len(),
    ensures
        match r {
            Ok((ts, o)) => counted_topics_at(buf@, off as int, short@) == Ok::<
                (Seq<TopicInfoView>, int),
                Seq<char>,
            >((infos_view(ts@), o as int)) && off <= o <= buf@.len(),
            Err(e) => counted_topics_at(buf@, off as int, short@) == Err::<
                (Seq<TopicInfoView>, int),
                Seq<char>,
            >(e@),
        },
{
    if buf.len() - off < 4 {
        return Err(short);
    }
    proof {
        bytes::lemma_byte_range_values();
    }
    let count: u32 = read_le(buf, off, 4) as u32;
    read_topics(buf, off + 4, count)
}

fn read_addrs(buf: &[u8], off: usize, count: usize) -> (r: Vec<[u8; 4]>)
    requires
        off + 4 * count <= buf@.len(),
    ensures
        r@ == Seq::new(count as nat, |k: int| addr_at(buf@, off + 4 * k)),
{
    let mut addrs: Vec<[u8; 4]> = Vec::new();
    let mut k: usize = 0;
    assert(buf.len() == buf@.len());
    while k < count
        invariant
            k <= count,
            off + 4 * count <= buf@.len() <= usize::MAX,
            addrs@ == Seq::new(k as nat, |k: int| addr_at(buf@, off + 4 * k)),
        decreases count - k,
    {
        let at: usize = off + 4 * k;
        addrs.push([buf[at], buf[at + 1], buf[at + 2], buf[at + 3]]);
        k += 1;
        proof {
            assert(addrs@ =~= Seq::new(k as nat, |k: int| addr_at(buf@, off + 4 * k)));
        }
    }
    addrs
}

fn read_node(buf: &[u8], off: usize) -> (r: Result<(PeerNodeInfo, usize), &'static str>)
    requires
        off <= buf@.len(),
    ensures
        match r {
            Ok((x, o)) => node_at(buf@, off as int) == Ok::<(NodeInfoView, int), Seq<char>>(
                (x@, o as int),
            ) && off < o <= buf@.len(),
            Err(e) => node_at(buf@, off as int) == Err::<(NodeInfoView, int), Seq<char>>(e@),
        },
{
    if buf.len() - off < 12 {
        return Err("truncated node header");
    }
    proof {
        bytes::lemma_byte_range_values();
    }
    let node_id: u64 = read_le(buf, off, 8);
    let domain_id: u32 = read_le(buf, off + 8, 4) as u32;
    let (node_name, o1) = match read_string(buf, off + 12) {
        Ok(x) => x,
        Err(e) => {
            return Err(e);
        },
    };
    let (node_namespace, o2) = match read_string(buf, o1) {
        Ok(x) => x,
        Err(e) => {
            return Err(e);
        },
    };
    let (published_topics, o3) = match read_counted_topics(buf, o2, "truncated pub count") {
        Ok(x) => x,
        Err(e) => {
            return Err(e);
        },
    };
    let (subscribed_topics, o4) = match read_counted_topics(buf, o3, "truncated sub count") {
        Ok(x) => x,
        Err(e) => {
            return Err(e);
        },
    };
    if buf.len() - o4 < 6 {
        return Err("truncated endpoint");
    }
    let quic_port: u16 = read_le(buf, o4, 2) as u16;
    let addr_count: u32 = read_le(buf, o4 + 2, 4) as u32;
    let limit: usize = if addr_count as usize <= MAX_QUIC_ADDRS {
        addr_count as usize
    } else {
        MAX_QUIC_ADDRS
    };
    let start: usize = o4 + 6;
    if buf.len() - start < limit * 4 {
        return Err("truncated addrs");
    }
    let quic_addrs = read_addrs(buf, start, limit);
    let node = PeerNodeInfo {
        node_id,
        domain_id,
        published_topics,
        subscribed_topics,
        quic_port,
        quic_addrs,
        node_name,
        node_namespace,
    };
    Ok((node, start + limit * 4))
}

/// The domain and the nodes of an answer.
pub fn decode_sync_response(buf: &[u8]) -> (r: Result<(u32, Vec<PeerNodeInfo>), &'static str>)
    ensures
        match r {
            Ok((domain_id, nodes)) => response_value(buf@) == Ok::<
                (u32, Seq<NodeInfoView>),
                Seq<char>,
            >((domain_id, nodes_view(nodes@))),
            Err(e) => response_value(buf@) == Err::<(u32, Seq<NodeInfoView>), Seq<char>>(e@),
        },
{
    if buf.len() < 9 || buf[0] != MSG_SYNC_RESPONSE {
        return Err("bad sync response");
    }
    proof {
        bytes::lemma_byte_range_values();
    }
    let domain_id: u32 = read_le(buf, 1, 4) as u32;
    let count: u32 = read_le(buf, 5, 4) as u32;
    let mut nodes: Vec<PeerNodeInfo> = Vec::new();
    let mut o: usize = 9;
    let mut k: u32 = 0;
    proof {
        assert(nodes_view(nodes@) =~= Seq::empty());
    }
    while k < count
        invariant
            k <= count,
            o <= buf@.len(),
            buf@.len() >= 9,
            buf@[0] == MSG_SYNC_RESPONSE,
            count == number_at(buf@, 5, 4),
            nodes_at(buf@, 9, k as nat) == Ok::<(Seq<NodeInfoView>, int), Seq<char>>(
                (nodes_view(nodes@), o as int),
            ),
        decreases count - k,
    {
        let ghost before = nodes@;
        match read_node(buf, o) {
            Ok((x, next)) => {
                nodes.push(x);
                o = next;
                proof {
                    assert(nodes_view(nodes@) =~= nodes_view(before).push(x@));
                }
            },
            Err(e) => {
                proof {
                    lemma_nodes_fail(buf@, 9, (k + 1) as nat, count as nat);
                }
                return Err(e);
            },
        }
        k += 1;
    }
    Ok((domain_id, nodes))
}

/// What a request brings of the sender's own nodes: nothing where it is bare, else
/// the sender and its nodes, or why they cannot be read.
pub open spec fn push_value(buf: Seq<u8>) -> Result<Option<(u64, Seq<NodeInfoView>)>, Seq<char>> {
    if buf.len() == 5 {
        Ok(None)
    } else if buf.len() < 14 || buf[0] != MSG_SYNC_REQUEST {
        Err("bad sync request push"@)
    } else {
        match response_value(buf.subrange(13, buf.len() as int)) {
            Err(e) => Err(e),
            Ok((_, ns)) => Ok(Some((number_at(buf, 5, 8) as u64, ns))),
        }
    }
}

/// The sender of a request and the nodes that it brings.
pub fn decode_sync_request_push(buf: &[u8]) -> (r: Result<
    Option<(u64, Vec<PeerNodeInfo>)>,
    &'static str,
>)
    ensures
        match r {
            Ok(None) => push_value(buf@) == Ok::<Option<(u64, Seq<NodeInfoView>)>, Seq<char>>(None),
            Ok(Some((id, nodes))) => push_value(buf@) == Ok::<
                Option<(u64, Seq<NodeInfoView>)>,
                Seq<char>,
            >(Some((id, nodes_view(nodes@)))),
            Err(e) => push_value(buf@) == Err::<Option<(u64, Seq<NodeInfoView>)>, Seq<char>>(e@),
        },
{
    if buf.len() == 5 {
        return Ok(None);
    }
    if buf.len() < 14 || buf[0] != MSG_SYNC_REQUEST {
        return Err("bad sync request push");
    }
    let daemon_id: u64 = read_le(buf, 5, 8);
    match decode_sync_response(vstd::slice::slice_subrange(buf, 13, buf.len())) {
        Ok((_, nodes)) => Ok(Some((daemon_id, nodes))),
        Err(e) => Err(e),
    }
}

/// Whether a text's length can be written in two bytes.
pub open spec fn text_fits(s: Seq<char>) -> bool {
    encode_utf8(s).len() < 0x1_0000
}

/// Whether the lengths of a topic's texts can be written.
pub open spec fn topic_fits(t: TopicInfoView) -> bool {
    &&& text_fits(t.name)
    &&& text_fits(t.topic_type)
    &&& text_fits(t.node_name)
    &&& text_fits(t.node_namespace)
}

/// Whether the lengths of topics, and of their texts, can be written.
pub open spec fn topics_fit(ts: Seq<TopicInfoView>) -> bool {
    &&& ts.len() < 0x1_0000_0000
    &&& forall|k: int| 0 <= k < ts.len() ==> topic_fits(#[trigger] ts[k])
}

/// Whether the lengths of a node's lists and texts can be written, and it has no
/// more addresses than are read.
pub open spec fn node_fits(n: NodeInfoView) -> bool {
    &&& text_fits(n.node_name)
    &&& text_fits(n.node_namespace)
    &&& topics_fit(n.published_topics)
    &&& topics_fit(n.subscribed_topics)
    &&& n.quic_addrs.len() <= MAX_QUIC_ADDRS
}

/// Whether `part` stands in `buf` at `off`.
#[verifier::opaque]
pub open spec fn stands_at(buf: Seq<u8>, off: int, part: Seq<u8>) -> bool {
    &&& 0 <= off
    &&& off + part.len() <= buf.len()
    &&& buf.subrange(off, off + part.len()) == part
}

/// What stands inside a part stands in the whole.
proof fn lemma_stands_inside(buf: Seq<u8>, off: int, part: Seq<u8>, at: int, inner: Seq<u8>)
    requires
        stands_at(buf, off, part),
        stands_at(part, at, inner),
    ensures
        stands_at(buf, off + at, inner),
{
    reveal(stands_at);
    assert(buf.subrange(off + at, off + at + inner.len()) =~= part.subrange(
        at,
        at + inner.len(),
    ));
}

/// What stands as one part stands as two, one behind the other.
proof fn lemma_split(buf: Seq<u8>, off: int, a: Seq<u8>, b: Seq<u8>)
    requires
        stands_at(buf, off, a + b),
    ensures
        stands_at(buf, off, a),
        stands_at(buf, off + a.len(), b),
{
    reveal(stands_at);
    assert((a + b).subrange(0, a.len() as int) =~= a);
    assert((a + b).subrange(a.len() as int, (a.len() + b.len()) as int) =~= b);
    lemma_stands_inside(buf, off, a + b, 0, a);
    lemma_stands_inside(buf, off, a + b, a.len() as int, b);
}

proof fn lemma_number_stands(buf: Seq<u8>, off: int, x: nat, n: nat)
    requires
        stands_at(buf, off, bytes::le_bytes(x, n)),
        x < bytes::byte_range(n),
    ensures
        number_at(buf, off, n as int) == x,
        off + n <= buf.len(),
{
    reveal(stands_at);
    bytes::lemma_le_bytes_len(x, n);
    bytes::lemma_le_round_trip(x, n);
}

proof fn lemma_text_stands(buf: Seq<u8>, off: int, s: Seq<char>)
    requires
        stands_at(buf, off, text_bytes(s)),
        text_fits(s),
    ensures
        text_at(buf, off) == Ok::<(Seq<char>, int), Seq<char>>((s, off + text_bytes(s).len())),
{
    reveal(stands_at);
    let e = encode_utf8(s);
    let whole = text_bytes(s);
    bytes::lemma_le_bytes_len(e.len(), 2);
    bytes::lemma_byte_range_values();
    assert(whole.subrange(0, 2) =~= bytes::le_bytes(e.len(), 2));
    assert(whole.subrange(2, 2 + e.len() as int) =~= e);
    lemma_stands_inside(buf, off, whole, 0, bytes::le_bytes(e.len(), 2));
    lemma_stands_inside(buf, off, whole, 2, e);
    lemma_number_stands(buf, off, e.len(), 2);
    encode_utf8_valid_utf8(s);
    encode_utf8_decode_utf8(s);
}

#[verifier::spinoff_prover]
#[verifier::rlimit(60)]
proof fn lemma_topic_head_parts(t: TopicInfoView)
    ensures
        topic_head(t).len() == 48,
        stands_at(topic_head(t), 0, bytes::le_bytes(t.hash as nat, 8)),
        stands_at(topic_head(t), 8, bytes::le_bytes(t.type_hash as nat, 8)),
        topic_head(t)[16] == t.qos_reliability,
        topic_head(t)[17] == t.qos_durability,
        topic_head(t)[18] == t.qos_history_kind,
        stands_at(
            topic_head(t),
            19,
            bytes::le_bytes(bytes::two_complement_32(t.qos_history_depth), 4),
        ),
        stands_at(topic_head(t), 23, bytes::le_bytes(t.qos_deadline_sec as nat, 4)),
        stands_at(topic_head(t), 27, bytes::le_bytes(t.qos_deadline_nsec as nat, 4)),
        stands_at(topic_head(t), 31, bytes::le_bytes(t.qos_lifespan_sec as nat, 4)),
        stands_at(topic_head(t), 35, bytes::le_bytes(t.qos_lifespan_nsec as nat, 4)),
        topic_head(t)[39] == t.qos_liveliness,
        stands_at(topic_head(t), 40, bytes::le_bytes(t.qos_liveliness_lease_sec as nat, 4)),
        stands_at(topic_head(t), 44, bytes::le_bytes(t.qos_liveliness_lease_nsec as nat, 4)),
{
    reveal(stands_at);
    broadcast use bytes::lemma_le_bytes_len;

    let h = topic_head(t);
    assert(h.subrange(0, 8) =~= bytes::le_bytes(t.hash as nat, 8));
    assert(h.subrange(8, 16) =~= bytes::le_bytes(t.type_hash as nat, 8));
    assert(h.subrange(19, 23) =~= bytes::le_bytes(
        bytes::two_complement_32(t.qos_history_depth),
        4,
    ));
    assert(h.subrange(23, 27) =~= bytes::le_bytes(t.qos_deadline_sec as nat, 4));
    assert(h.subrange(27, 31) =~= bytes::le_bytes(t.qos_deadline_nsec as nat, 4));
    assert(h.subrange(31, 35) =~= bytes::le_bytes(t.qos_lifespan_sec as nat, 4));
    assert(h.subrange(35, 39) =~= bytes::le_bytes(t.qos_lifespan_nsec as nat, 4));
    assert(h.subrange(40, 44) =~= bytes::le_bytes(t.qos_liveliness_lease_sec as nat, 4));
    assert(h.subrange(44, 48) =~= bytes::le_bytes(t.qos_liveliness_lease_nsec as nat, 4));
}

proof fn lemma_topic_head_stands(buf: Seq<u8>, off: int, t: TopicInfoView)
    requires
        stands_at(buf, off, topic_head(t)),
    ensures
        off + 48 <= buf.len(),
        topic_with(buf, off, t.name, t.topic_type, t.node_name, t.node_namespace) == t,
{
    reveal(stands_at);
    let h = topic_head(t);
    lemma_topic_head_parts(t);
    bytes::lemma_byte_range_values();
    let d = bytes::two_complement_32(t.qos_history_depth);
    lemma_stands_inside(buf, off, h, 0, bytes::le_bytes(t.hash as nat, 8));
    lemma_number_stands(buf, off, t.hash as nat, 8);
    lemma_stands_inside(buf, off, h, 8, bytes::le_bytes(t.type_hash as nat, 8));
    lemma_number_stands(buf, off + 8, t.type_hash as nat, 8);
    lemma_stands_inside(buf, off, h, 19, bytes::le_bytes(d, 4));
    lemma_number_stands(buf, off + 19, d, 4);
    lemma_stands_inside(buf, off, h, 23, bytes::le_bytes(t.qos_deadline_sec as nat, 4));
    lemma_number_stands(buf, off + 23, t.qos_deadline_sec as nat, 4);
    lemma_stands_inside(buf, off, h, 27, bytes::le_bytes(t.qos_deadline_nsec as nat, 4));
    lemma_number_stands(buf, off + 27, t.qos_deadline_nsec as nat, 4);
    lemma_stands_inside(buf, off, h, 31, bytes::le_bytes(t.qos_lifespan_sec as nat, 4));
    lemma_number_stands(buf, off + 31, t.qos_lifespan_sec as nat, 4);
    lemma_stands_inside(buf, off, h, 35, bytes::le_bytes(t.qos_lifespan_nsec as nat, 4));
    lemma_number_stands(buf, off + 35, t.qos_lifespan_nsec as nat, 4);
    lemma_stands_inside(buf, off, h, 40, bytes::le_bytes(t.qos_liveliness_lease_sec as nat, 4));
    lemma_number_stands(buf, off + 40, t.qos_liveliness_lease_sec as nat, 4);
    lemma_stands_inside(buf, off, h, 44, bytes::le_bytes(t.qos_liveliness_lease_nsec as nat, 4));
    lemma_number_stands(buf, off + 44, t.qos_liveliness_lease_nsec as nat, 4);
    assert(buf.subrange(off, off + 48)[16] == h[16]);
    assert(buf.subrange(off, off + 48)[17] == h[17]);
    assert(buf.subrange(off, off + 48)[18] == h[18]);
    assert(buf.subrange(off, off + 48)[39] == h[39]);
    assert(topic_with(buf, off, t.name, t.topic_type, t.node_name, t.node_namespace) =~= t);
}

proof fn lemma_topic_stands(buf: Seq<u8>, off: int, t: TopicInfoView)
    requires
        stands_at(buf, off, topic_bytes(t)),
        topic_fits(t),
    ensures
        topic_at(buf, off) == Ok::<(TopicInfoView, int), Seq<char>>(
            (t, off + topic_bytes(t).len()),
        ),
{
    let h = topic_head(t);
    let a = text_bytes(t.name);
    let b = text_bytes(t.topic_type);
    let c = text_bytes(t.node_name);
    let d = text_bytes(t.node_namespace);
    lemma_split(buf, off, h + a + b + c, d);
    lemma_split(buf, off, h + a + b, c);
    lemma_split(buf, off, h + a, b);
    lemma_split(buf, off, h, a);
    lemma_topic_head_parts(t);
    lemma_topic_head_stands(buf, off, t);
    let o1: int = 48 + a.len() as int;
    let o2: int = o1 + b.len();
    let o3: int = o2 + c.len();
    lemma_text_stands(buf, off + 48, t.name);
    lemma_text_stands(buf, off + o1, t.topic_type);
    lemma_text_stands(buf, off + o2, t.node_name);
    lemma_text_stands(buf, off + o3, t.node_namespace);
}

proof fn lemma_topics_stand(buf: Seq<u8>, off: int, ts: Seq<TopicInfoView>)
    requires
        stands_at(buf, off, topics_bytes(ts)),
        topics_fit(ts),
    ensures
        topics_at(buf, off, ts.len()) == Ok::<(Seq<TopicInfoView>, int), Seq<char>>(
            (ts, off + topics_bytes(ts).len()),
        ),
    decreases ts.len(),
{
    if ts.len() == 0 {
        assert(ts =~= Seq::empty());
    } else {
        let init = ts.drop_last();
        let p = topics_bytes(init);
        lemma_split(buf, off, p, topic_bytes(ts.last()));
        assert forall|k: int| 0 <= k < init.len() implies topic_fits(#[trigger] init[k]) by {
            assert(topic_fits(ts[k]));
        }
        lemma_topics_stand(buf, off, init);
        assert(topic_fits(ts[ts.len() - 1]));
        lemma_topic_stands(buf, off + p.len(), ts.last());
        assert(init.push(ts.last()) =~= ts);
    }
}

proof fn lemma_addrs_bytes(addrs: Seq<[u8; 4]>)
    ensures
        addrs_bytes(addrs).len() == 4 * addrs.len(),
        forall|k: int, j: int|
            #![trigger addrs[k][j]]
            0 <= k < addrs.len() && 0 <= j < 4 ==> addrs_bytes(addrs)[4 * k + j] == addrs[k][j],
    decreases addrs.len(),
{
    if addrs.len() > 0 {
        let init = addrs.drop_last();
        lemma_addrs_bytes(init);
        assert forall|k: int, j: int|
            #![trigger addrs[k][j]]
            0 <= k < addrs.len() && 0 <= j < 4 implies addrs_bytes(addrs)[4 * k + j]
            == addrs[k][j] by {
            if k < init.len() {
                assert(init[k][j] == addrs[k][j]);
                assert(4 * k + j < 4 * init.len());
            }
        }
    }
}

proof fn lemma_addrs_stand(buf: Seq<u8>, off: int, addrs: Seq<[u8; 4]>)
    requires
        stands_at(buf, off, addrs_bytes(addrs)),
    ensures
        off + 4 * addrs.len() <= buf.len(),
        Seq::new(addrs.len(), |k: int| addr_at(buf, off + 4 * k)) == addrs,
{
    reveal(stands_at);
    lemma_addrs_bytes(addrs);
    let part = addrs_bytes(addrs);
    assert forall|k: int| 0 <= k < addrs.len() implies addr_at(buf, off + 4 * k)
        == #[trigger] addrs[k] by {
        let got = addr_at(buf, off + 4 * k);
        assert forall|j: int| 0 <= j < 4 implies got[j] == addrs[k][j] by {
            assert(part[4 * k + j] == addrs[k][j]);
            assert(buf.subrange(off, off + part.len())[4 * k + j] == buf[off + 4 * k + j]);
        }
        assert(got =~= addrs[k]);
    }
    assert(Seq::new(addrs.len(), |k: int| addr_at(buf, off + 4 * k)) =~= addrs);
}

/// Where the parts of a node stand, behind its first twelve bytes and its names.
#[verifier::spinoff_prover]
proof fn lemma_node_parts(buf: Seq<u8>, off: int, n: NodeInfoView)
    requires
        stands_at(buf, off, node_bytes(n)),
    ensures
        ({
            let o1: int = 12 + text_bytes(n.node_name).len() as int;
            let o2: int = o1 + text_bytes(n.node_namespace).len();
            let o3: int = o2 + 4 + topics_bytes(n.published_topics).len();
            let o4: int = o3 + 4 + topics_bytes(n.subscribed_topics).len();
            &&& stands_at(buf, off, bytes::le_bytes(n.node_id as nat, 8))
            &&& stands_at(buf, off + 8, bytes::le_bytes(n.domain_id as nat, 4))
            &&& stands_at(buf, off + 12, text_bytes(n.node_name))
            &&& stands_at(buf, off + o1, text_bytes(n.node_namespace))
            &&& stands_at(buf, off + o2, bytes::le_bytes(n.published_topics.len(), 4))
            &&& stands_at(buf, off + o2 + 4, topics_bytes(n.published_topics))
            &&& stands_at(buf, off + o3, bytes::le_bytes(n.subscribed_topics.len(), 4))
            &&& stands_at(buf, off + o3 + 4, topics_bytes(n.subscribed_topics))
            &&& stands_at(buf, off + o4, bytes::le_bytes(n.quic_port as nat, 2))
            &&& stands_at(buf, off + o4 + 2, bytes::le_bytes(n.quic_addrs.len(), 4))
            &&& stands_at(buf, off + o4 + 6, addrs_bytes(n.quic_addrs))
            &&& node_bytes(n).len() == o4 + 6 + 4 * n.quic_addrs.len()
        }),
{
    let id = bytes::le_bytes(n.node_id as nat, 8);
    let dom = bytes::le_bytes(n.domain_id as nat, 4);
    let name = text_bytes(n.node_name);
    let ns = text_bytes(n.node_namespace);
    let pc = bytes::le_bytes(n.published_topics.len(), 4);
    let pt = topics_bytes(n.published_topics);
    let sc = bytes::le_bytes(n.subscribed_topics.len(), 4);
    let st = topics_bytes(n.subscribed_topics);
    let port = bytes::le_bytes(n.quic_port as nat, 2);
    let ac = bytes::le_bytes(n.quic_addrs.len(), 4);
    let ad = addrs_bytes(n.quic_addrs);
    bytes::lemma_le_bytes_len(n.node_id as nat, 8);
    bytes::lemma_le_bytes_len(n.domain_id as nat, 4);
    bytes::lemma_le_bytes_len(n.published_topics.len(), 4);
    bytes::lemma_le_bytes_len(n.subscribed_topics.len(), 4);
    bytes::lemma_le_bytes_len(n.quic_port as nat, 2);
    bytes::lemma_le_bytes_len(n.quic_addrs.len(), 4);
    lemma_addrs_bytes(n.quic_addrs);
    let p2 = id + dom;
    let p3 = p2 + name;
    let p4 = p3 + ns;
    let p5 = p4 + pc;
    let p6 = p5 + pt;
    let p7 = p6 + sc;
    let p8 = p7 + st;
    let p9 = p8 + port;
    let p10 = p9 + ac;
    lemma_split(buf, off, p10, ad);
    lemma_split(buf, off, p9, ac);
    lemma_split(buf, off, p8, port);
    lemma_split(buf, off, p7, st);
    lemma_split(buf, off, p6, sc);
    lemma_split(buf, off, p5, pt);
    lemma_split(buf, off, p4, pc);
    lemma_split(buf, off, p3, ns);
    lemma_split(buf, off, p2, name);
    lemma_split(buf, off, id, dom);
}

#[verifier::spinoff_prover]
proof fn lemma_node_stands(buf: Seq<u8>, off: int, n: NodeInfoView)
    requires
        stands_at(buf, off, node_bytes(n)),
        node_fits(n),
    ensures
        node_at(buf, off) == Ok::<(NodeInfoView, int), Seq<char>>((n, off + node_bytes(n).len())),
{
    bytes::lemma_byte_range_values();
    lemma_node_parts(buf, off, n);
    let o1: int = 12 + text_bytes(n.node_name).len() as int;
    let o2: int = o1 + text_bytes(n.node_namespace).len();
    let o3: int = o2 + 4 + topics_bytes(n.published_topics).len();
    let o4: int = o3 + 4 + topics_bytes(n.subscribed_topics).len();
    lemma_number_stands(buf, off, n.node_id as nat, 8);
    lemma_number_stands(buf, off + 8, n.domain_id as nat, 4);
    lemma_text_stands(buf, off + 12, n.node_name);
    lemma_text_stands(buf, off + o1, n.node_namespace);
    lemma_number_stands(buf, off + o2, n.published_topics.len(), 4);
    lemma_topics_stand(buf, off + o2 + 4, n.published_topics);
    lemma_number_stands(buf, off + o3, n.subscribed_topics.len(), 4);
    lemma_topics_stand(buf, off + o3 + 4, n.subscribed_topics);
    lemma_number_stands(buf, off + o4, n.quic_port as nat, 2);
    lemma_number_stands(buf, off + o4 + 2, n.quic_addrs.len(), 4);
    lemma_addrs_stand(buf, off + o4 + 6, n.quic_addrs);
    assert(addr_limit(n.quic_addrs.len()) == n.quic_addrs.len());
}

/// One more node that can be read lengthens the list by it.
proof fn lemma_nodes_step(
    buf: Seq<u8>,
    off: int,
    init: Seq<NodeInfoView>,
    o: int,
    last: NodeInfoView,
    next: int,
)
    requires
        nodes_at(buf, off, init.len()) == Ok::<(Seq<NodeInfoView>, int), Seq<char>>((init, o)),
        node_at(buf, o) == Ok::<(NodeInfoView, int), Seq<char>>((last, next)),
    ensures
        nodes_at(buf, off, init.len() + 1) == Ok::<(Seq<NodeInfoView>, int), Seq<char>>(
            (init.push(last), next),
        ),
{
}

#[verifier::spinoff_prover]
proof fn lemma_nodes_stand(buf: Seq<u8>, off: int, ns: Seq<NodeInfoView>)
    requires
        stands_at(buf, off, nodes_bytes(ns)),
        forall|k: int| 0 <= k < ns.len() ==> node_fits(#[trigger] ns[k]),
    ensures
        nodes_at(buf, off, ns.len()) == Ok::<(Seq<NodeInfoView>, int), Seq<char>>(
            (ns, off + nodes_bytes(ns).len()),
        ),
    decreases ns.len(),
{
    if ns.len() == 0 {
        assert(ns =~= Seq::empty());
    } else {
        let init = ns.drop_last();
        let p = nodes_bytes(init);
        lemma_split(buf, off, p, node_bytes(ns.last()));
        assert forall|k: int| 0 <= k < init.len() implies node_fits(#[trigger] init[k]) by {
            assert(node_fits(ns[k]));
        }
        lemma_nodes_stand(buf, off, init);
        assert(node_fits(ns[ns.len() - 1]));
        lemma_node_stands(buf, off + p.len(), ns.last());
        lemma_nodes_step(
            buf,
            off,
            init,
            off + p.len(),
            ns.last(),
            off + p.len() + node_bytes(ns.last()).len(),
        );
        assert(init.push(ns.last()) =~= ns);
    }
}

/// Reading an answer gives back the domain and the nodes that were written, where
/// their lengths can be written and no node has more addresses than are read.
pub proof fn law_sync_response_round_trip(domain_id: u32, ns: Seq<NodeInfoView>)
    requires
        ns.len() < 0x1_0000_0000,
        forall|k: int| 0 <= k < ns.len() ==> node_fits(#[trigger] ns[k]),
    ensures
        response_value(response_bytes(domain_id, ns)) == Ok::<
            (u32, Seq<NodeInfoView>),
            Seq<char>,
        >((domain_id, ns)),
{
    reveal(stands_at);
    broadcast use bytes::lemma_le_bytes_len;

    bytes::lemma_byte_range_values();
    let whole = response_bytes(domain_id, ns);
    let dom = bytes::le_bytes(domain_id as nat, 4);
    let count = bytes::le_bytes(ns.len(), 4);
    assert(whole.subrange(1, 5) =~= dom);
    assert(whole.subrange(5, 9) =~= count);
    assert(whole.subrange(9, whole.len() as int) =~= nodes_bytes(ns));
    lemma_number_stands(whole, 1, domain_id as nat, 4);
    lemma_number_stands(whole, 5, ns.len(), 4);
    lemma_nodes_stand(whole, 9, ns);
}

/// A number in the first `k` bytes is the same number in all.
proof fn lemma_number_cut(buf: Seq<u8>, k: int, off: int, n: int)
    requires
        0 <= off,
        0 <= n,
        off + n <= k <= buf.len(),
    ensures
        number_at(buf.subrange(0, k), off, n) == number_at(buf, off, n),
{
    assert(buf.subrange(0, k).subrange(off, off + n) =~= buf.subrange(off, off + n));
}

/// What can be read in the first `k` bytes ends there, and is the same in all.
proof fn lemma_text_cut(buf: Seq<u8>, k: int, off: int)
    requires
        0 <= off,
        0 <= k <= buf.len(),
    ensures
        text_at(buf.subrange(0, k), off) matches Ok((s, o)) ==> off < o <= k && text_at(buf, off)
            == Ok::<(Seq<char>, int), Seq<char>>((s, o)),
{
    let a = buf.subrange(0, k);
    if let Ok((s, o)) = text_at(a, off) {
        lemma_number_cut(buf, k, off, 2);
        assert(a.subrange(off + 2, o) =~= buf.subrange(off + 2, o));
    }
}

proof fn lemma_topic_cut(buf: Seq<u8>, k: int, off: int)
    requires
        0 <= off,
        0 <= k <= buf.len(),
    ensures
        topic_at(buf.subrange(0, k), off) matches Ok((t, o)) ==> off < o <= k && topic_at(buf, off)
            == Ok::<(TopicInfoView, int), Seq<char>>((t, o)),
{
    let a = buf.subrange(0, k);
    if let Ok((t, o)) = topic_at(a, off) {
        lemma_text_cut(buf, k, off + 48);
        let (name, o1) = text_at(a, off + 48)->Ok_0;
        lemma_text_cut(buf, k, o1);
        let (topic_type, o2) = text_at(a, o1)->Ok_0;
        lemma_text_cut(buf, k, o2);
        let (node_name, o3) = text_at(a, o2)->Ok_0;
        lemma_text_cut(buf, k, o3);
        lemma_number_cut(buf, k, off, 8);
        lemma_number_cut(buf, k, off + 8, 8);
        lemma_number_cut(buf, k, off + 19, 4);
        lemma_number_cut(buf, k, off + 23, 4);
        lemma_number_cut(buf, k, off + 27, 4);
        lemma_number_cut(buf, k, off + 31, 4);
        lemma_number_cut(buf, k, off + 35, 4);
        lemma_number_cut(buf, k, off + 40, 4);
        lemma_number_cut(buf, k, off + 44, 4);
    }
}

proof fn lemma_topics_cut(buf: Seq<u8>, k: int, off: int, n: nat)
    requires
        0 <= off <= k <= buf.len(),
    ensures
        topics_at(buf.subrange(0, k), off, n) matches Ok((ts, o)) ==> off <= o <= k && topics_at(
            buf,
            off,
            n,
        ) == Ok::<(Seq<TopicInfoView>, int), Seq<char>>((ts, o)),
    decreases n,
{
    if n > 0 {
        lemma_topics_cut(buf, k, off, (n - 1) as nat);
        if let Ok((ts, o)) = topics_at(buf.subrange(0, k), off, (n - 1) as nat) {
            lemma_topic_cut(buf, k, o);
        }
    }
}

proof fn lemma_counted_topics_cut(buf: Seq<u8>, k: int, off: int, short: Seq<char>)
    requires
        0 <= off,
        0 <= k <= buf.len(),
    ensures
        counted_topics_at(buf.subrange(0, k), off, short) matches Ok((ts, o)) ==> off < o <= k
            && counted_topics_at(buf, off, short) == Ok::<(Seq<TopicInfoView>, int), Seq<char>>(
            (ts, o),
        ),
{
    if off + 4 <= k {
        lemma_number_cut(buf, k, off, 4);
        lemma_topics_cut(buf, k, off + 4, number_at(buf, off, 4));
    }
}

#[verifier::spinoff_prover]
proof fn lemma_node_cut(buf: Seq<u8>, k: int, off: int)
    requires
        0 <= off,
        0 <= k <= buf.len(),
    ensures
        node_at(buf.subrange(0, k), off) matches Ok((n, o)) ==> off < o <= k && node_at(buf, off)
            == Ok::<(NodeInfoView, int), Seq<char>>((n, o)),
{
    let a = buf.subrange(0, k);
    if let Ok((n, o)) = node_at(a, off) {
        lemma_text_cut(buf, k, off + 12);
        let (node_name, o1) = text_at(a, off + 12)->Ok_0;
        lemma_text_cut(buf, k, o1);
        let (node_namespace, o2) = text_at(a, o1)->Ok_0;
        lemma_counted_topics_cut(buf, k, o2, "truncated pub count"@);
        let (published_topics, o3) = counted_topics_at(a, o2, "truncated pub count"@)->Ok_0;
        lemma_counted_topics_cut(buf, k, o3, "truncated sub count"@);
        let (subscribed_topics, o4) = counted_topics_at(a, o3, "truncated sub count"@)->Ok_0;
        lemma_number_cut(buf, k, off, 8);
        lemma_number_cut(buf, k, off + 8, 4);
        lemma_number_cut(buf, k, o4, 2);
        lemma_number_cut(buf, k, o4 + 2, 4);
        let limit = addr_limit(number_at(buf, o4 + 2, 4));
        assert(Seq::new(limit as nat, |j: int| addr_at(a, o4 + 6 + 4 * j)) =~= Seq::new(
            limit as nat,
            |j: int| addr_at(buf, o4 + 6 + 4 * j),
        ));
    }
}

proof fn lemma_nodes_cut(buf: Seq<u8>, k: int, off: int, n: nat)
    requires
        0 <= off <= k <= buf.len(),
    ensures
        nodes_at(buf.subrange(0, k), off, n) matches Ok((ns, o)) ==> off <= o <= k && nodes_at(
            buf,
            off,
            n,
        ) == Ok::<(Seq<NodeInfoView>, int), Seq<char>>((ns, o)),
    decreases n,
{
    if n > 0 {
        lemma_nodes_cut(buf, k, off, (n - 1) as nat);
        if let Ok((ns, o)) = nodes_at(buf.subrange(0, k), off, (n - 1) as nat) {
            lemma_node_cut(buf, k, o);
        }
    }
}

/// An answer that was cut short is refused: none of its bytes but all of them read as
/// an answer, where the lengths in it can be written and no node has more addresses
/// than are read.
pub proof fn law_cut_response_is_refused(domain_id: u32, ns: Seq<NodeInfoView>, k: int)
    requires
        ns.len() < 0x1_0000_0000,
        forall|i: int| 0 <= i < ns.len() ==> node_fits(#[trigger] ns[i]),
        0 <= k < response_bytes(domain_id, ns).len(),
    ensures
        response_value(response_bytes(domain_id, ns).subrange(0, k)) is Err,
{
    reveal(stands_at);
    broadcast use bytes::lemma_le_bytes_len;

    bytes::lemma_byte_range_values();
    let whole = response_bytes(domain_id, ns);
    if k >= 9 {
        assert(whole.subrange(5, 9) =~= bytes::le_bytes(ns.len(), 4));
        assert(whole.subrange(9, whole.len() as int) =~= nodes_bytes(ns));
        lemma_number_stands(whole, 5, ns.len(), 4);
        lemma_nodes_stand(whole, 9, ns);
        lemma_number_cut(whole, k, 5, 4);
        lemma_nodes_cut(whole, k, 9, ns.len());
    }
}

/// A request with nodes reads as a request for its domain, names its sender, and
/// gives back the nodes that it brings. A bare request reads as a request for its
/// domain and brings none.
pub proof fn law_sync_request_round_trip(domain_id: u32, daemon_id: u64, ns: Seq<NodeInfoView>)
    requires
        ns.len() < 0x1_0000_0000,
        forall|k: int| 0 <= k < ns.len() ==> node_fits(#[trigger] ns[k]),
    ensures
        ({
            let bare = request_bytes(domain_id);
            let full = bare + bytes::le_bytes(daemon_id as nat, 8) + response_bytes(domain_id, ns);
            &&& is_request(bare)
            &&& bare.len() == 5
            &&& bytes::le_value(bare.subrange(1, 5)) == domain_id
            &&& push_value(bare) == Ok::<Option<(u64, Seq<NodeInfoView>)>, Seq<char>>(None)
            &&& is_request(full)
            &&& full.len() >= 13
            &&& bytes::le_value(full.subrange(1, 5)) == domain_id
            &&& bytes::le_value(full.subrange(5, 13)) == daemon_id
            &&& push_value(full) == Ok::<Option<(u64, Seq<NodeInfoView>)>, Seq<char>>(
                Some((daemon_id, ns)),
            )
        }),
{
    reveal(stands_at);
    broadcast use bytes::lemma_le_bytes_len;

    bytes::lemma_byte_range_values();
    let bare = request_bytes(domain_id);
    let dom = bytes::le_bytes(domain_id as nat, 4);
    let id = bytes::le_bytes(daemon_id as nat, 8);
    let answer = response_bytes(domain_id, ns);
    let full = bare + id + answer;
    assert(bare.subrange(1, 5) =~= dom);
    assert(full.subrange(1, 5) =~= dom);
    assert(full.subrange(5, 13) =~= id);
    assert(full.subrange(13, full.len() as int) =~= answer);
    bytes::lemma_le_round_trip(domain_id as nat, 4);
    bytes::lemma_le_round_trip(daemon_id as nat, 8);
    law_sync_response_round_trip(domain_id, ns);
}

/// A connection with another daemon. Times are in nanoseconds of a clock that never
/// goes back.
#[derive(Clone, Copy, Debug, PartialEq, Eq, Structural)]
pub struct PeerConnection {
    pub daemon_id: u64,
    pub last_heartbeat: u64,
}

impl PeerConnection {
    /// Whether the last heartbeat is longer ago than that.
    pub fn is_stale(&self, now: u64, timeout: Duration) -> (r: bool)
        ensures
            r == (now > self.last_heartbeat && now - self.last_heartbeat > timeout.total()),
            r <==> now > self.last_heartbeat + timeout.secs * 1_000_000_000 + timeout.nanos,
    {
        now > self.last_heartbeat && (now - self.last_heartbeat) as u128 > timeout.secs as u128
            * 1_000_000_000 + timeout.nanos as u128
    }
}

/// A text on the wire opens with the number of its UTF-8 bytes, in two bytes of which
/// the first weighs least, and those bytes follow.
pub proof fn law_text_layout(s: Seq<char>)
    requires
        text_fits(s),
    ensures
        text_bytes(s).len() == 2 + encode_utf8(s).len(),
        text_bytes(s)[0] + 256 * text_bytes(s)[1] == encode_utf8(s).len(),
        forall|k: int|
            0 <= k < encode_utf8(s).len() ==> text_bytes(s)[2 + k] == #[trigger] encode_utf8(s)[k],
{
    broadcast use bytes::lemma_le_bytes_len;

    let n = encode_utf8(s).len();
    let b = bytes::le_bytes(n, 2);
    bytes::lemma_byte_range_values();
    bytes::lemma_le_round_trip(n, 2);
    reveal_with_fuel(bytes::le_value, 3);
    assert(text_bytes(s)[0] == b[0] && text_bytes(s)[1] == b[1]);
    assert(b.drop_first()[0] == b[1]);
    assert(b.drop_first().drop_first().len() == 0);
}

/// Each field of a topic has a place of its own on the wire: the name's hash stands
/// first, the type's hash behind it, then the three kinds of delivery, storage and
/// history in a byte each, the depth of the history, the deadline, the lifespan, the
/// kind of liveliness and its lease. The four texts follow, each behind the one before:
/// the name, the type, the node's name and its namespace.
#[verifier::spinoff_prover]
#[verifier::rlimit(60)]
pub proof fn law_topic_layout(t: TopicInfoView)
    ensures
        ({
            let b = topic_bytes(t);
            let o1: int = 48 + text_bytes(t.name).len() as int;
            let o2: int = o1 + text_bytes(t.topic_type).len();
            let o3: int = o2 + text_bytes(t.node_name).len();
            &&& b.len() == o3 + text_bytes(t.node_namespace).len()
            &&& bytes::le_value(b.subrange(0, 8)) == t.hash
            &&& bytes::le_value(b.subrange(8, 16)) == t.type_hash
            &&& b[16] == t.qos_reliability
            &&& b[17] == t.qos_durability
            &&& b[18] == t.qos_history_kind
            &&& t.qos_history_depth >= 0 ==> bytes::le_value(b.subrange(19, 23))
                == t.qos_history_depth
            &&& t.qos_history_depth < 0 ==> bytes::le_value(b.subrange(19, 23)) == 0x1_0000_0000
                + t.qos_history_depth
            &&& bytes::le_value(b.subrange(23, 27)) == t.qos_deadline_sec
            &&& bytes::le_value(b.subrange(27, 31)) == t.qos_deadline_nsec
            &&& bytes::le_value(b.subrange(31, 35)) == t.qos_lifespan_sec
            &&& bytes::le_value(b.subrange(35, 39)) == t.qos_lifespan_nsec
            &&& b[39] == t.qos_liveliness
            &&& bytes::le_value(b.subrange(40, 44)) == t.qos_liveliness_lease_sec
            &&& bytes::le_value(b.subrange(44, 48)) == t.qos_liveliness_lease_nsec
            &&& b.subrange(48, o1) == text_bytes(t.name)
            &&& b.subrange(o1, o2) == text_bytes(t.topic_type)
            &&& b.subrange(o2, o3) == text_bytes(t.node_name)
            &&& b.subrange(o3, b.len() as int) == text_bytes(t.node_namespace)
        }),
{
    let b = topic_bytes(t);
    let h = topic_head(t);
    lemma_topic_head_parts(t);
    let o1: int = 48 + text_bytes(t.name).len() as int;
    let o2: int = o1 + text_bytes(t.topic_type).len();
    let o3: int = o2 + text_bytes(t.node_name).len();
    assert(b.subrange(48, o1) =~= text_bytes(t.name));
    assert(b.subrange(o1, o2) =~= text_bytes(t.topic_type));
    assert(b.subrange(o2, o3) =~= text_bytes(t.node_name));
    assert(b.subrange(o3, b.len() as int) =~= text_bytes(t.node_namespace));
    assert(b.subrange(0, 48) =~= h);
    assert(stands_at(b, 0, h)) by {
        reveal(stands_at);
    }
    lemma_topic_head_stands(b, 0, t);
    bytes::lemma_byte_range_values();
    let d = bytes::two_complement_32(t.qos_history_depth);
    lemma_stands_inside(b, 0, h, 0, bytes::le_bytes(t.hash as nat, 8));
    lemma_number_stands(b, 0, t.hash as nat, 8);
    lemma_stands_inside(b, 0, h, 8, bytes::le_bytes(t.type_hash as nat, 8));
    lemma_number_stands(b, 8, t.type_hash as nat, 8);
    lemma_stands_inside(b, 0, h, 19, bytes::le_bytes(d, 4));
    lemma_number_stands(b, 19, d, 4);
    lemma_stands_inside(b, 0, h, 23, bytes::le_bytes(t.qos_deadline_sec as nat, 4));
    lemma_number_stands(b, 23, t.qos_deadline_sec as nat, 4);
    lemma_stands_inside(b, 0, h, 27, bytes::le_bytes(t.qos_deadline_nsec as nat, 4));
    lemma_number_stands(b, 27, t.qos_deadline_nsec as nat, 4);
    lemma_stands_inside(b, 0, h, 31, bytes::le_bytes(t.qos_lifespan_sec as nat, 4));
    lemma_number_stands(b, 31, t.qos_lifespan_sec as nat, 4);
    lemma_stands_inside(b, 0, h, 35, bytes::le_bytes(t.qos_lifespan_nsec as nat, 4));
    lemma_number_stands(b, 35, t.qos_lifespan_nsec as nat, 4);
    lemma_stands_inside(b, 0, h, 40, bytes::le_bytes(t.qos_liveliness_lease_sec as nat, 4));
    lemma_number_stands(b, 40, t.qos_liveliness_lease_sec as nat, 4);
    lemma_stands_inside(b, 0, h, 44, bytes::le_bytes(t.qos_liveliness_lease_nsec as nat, 4));
    lemma_number_stands(b, 44, t.qos_liveliness_lease_nsec as nat, 4);
    assert(b[16] == h[16] && b[17] == h[17] && b[18] == h[18] && b[39] == h[39]);
}

proof fn lemma_nothing_before(x: Seq<u8>)
    ensures
        Seq::<u8>::empty() + x == x,
{
    assert(Seq::<u8>::empty() + x =~= x);
}

proof fn lemma_nothing_behind(x: Seq<u8>)
    ensures
        x + Seq::<u8>::empty() == x,
{
    assert(x + Seq::<u8>::empty() =~= x);
}

/// Topics on the wire stand one behind the other in their order.
#[verifier::spinoff_prover]
pub proof fn law_topics_in_order(a: Seq<TopicInfoView>, b: Seq<TopicInfoView>)
    ensures
        topics_bytes(a + b) == topics_bytes(a) + topics_bytes(b),
        a.len() == 1 ==> topics_bytes(a) == topic_bytes(a[0]),
    decreases b.len(),
{
    if a.len() == 1 {
        let init = a.drop_last();
        assert(init.len() == 0);
        assert(topics_bytes(init) == Seq::<u8>::empty());
        lemma_nothing_before(topic_bytes(a[0]));
    }
    if b.len() == 0 {
        assert(a + b =~= a);
        assert(topics_bytes(b) == Seq::<u8>::empty());
        lemma_nothing_behind(topics_bytes(a));
    } else {
        law_topics_in_order(a, b.drop_last());
        assert((a + b).drop_last() =~= a + b.drop_last());
        assert((a + b).last() == b.last());
        lemma_glue(topics_bytes(a), topics_bytes(b.drop_last()), topic_bytes(b.last()));
    }
}

/// Nodes on the wire stand one behind the other in their order.
#[verifier::spinoff_prover]
pub proof fn law_nodes_in_order(a: Seq<NodeInfoView>, b: Seq<NodeInfoView>)
    ensures
        nodes_bytes(a + b) == nodes_bytes(a) + nodes_bytes(b),
        a.len() == 1 ==> nodes_bytes(a) == node_bytes(a[0]),
    decreases b.len(),
{
    if a.len() == 1 {
        let init = a.drop_last();
        assert(init.len() == 0);
        assert(nodes_bytes(init) == Seq::<u8>::empty());
        lemma_nothing_before(node_bytes(a[0]));
    }
    if b.len() == 0 {
        assert(a + b =~= a);
        assert(nodes_bytes(b) == Seq::<u8>::empty());
        lemma_nothing_behind(nodes_bytes(a));
    } else {
        law_nodes_in_order(a, b.drop_last());
        assert((a + b).drop_last() =~= a + b.drop_last());
        assert((a + b).last() == b.last());
        lemma_glue(nodes_bytes(a), nodes_bytes(b.drop_last()), node_bytes(b.last()));
    }
}

/// Each part of a node has a place of its own on the wire: its identity, its domain, its
/// name and its namespace, then how many topics it publishes and those topics, how many
/// it subscribes to and those, its port, how many addresses it has, and four bytes for
/// each of them.
#[verifier::spinoff_prover]
#[verifier::rlimit(60)]
pub proof fn law_node_layout(n: NodeInfoView)
    requires
        node_fits(n),
    ensures
        ({
            let b = node_bytes(n);
            let o1: int = 12 + text_bytes(n.node_name).len() as int;
            let o2: int = o1 + text_bytes(n.node_namespace).len();
            let o3: int = o2 + 4 + topics_bytes(n.published_topics).len();
            let o4: int = o3 + 4 + topics_bytes(n.subscribed_topics).len();
            &&& b.len() == o4 + 6 + 4 * n.quic_addrs.len()
            &&& bytes::le_value(b.subrange(0, 8)) == n.node_id
            &&& bytes::le_value(b.subrange(8, 12)) == n.domain_id
            &&& b.subrange(12, o1) == text_bytes(n.node_name)
            &&& b.subrange(o1, o2) == text_bytes(n.node_namespace)
            &&& bytes::le_value(b.subrange(o2, o2 + 4)) == n.published_topics.len()
            &&& b.subrange(o2 + 4, o3) == topics_bytes(n.published_topics)
            &&& bytes::le_value(b.subrange(o3, o3 + 4)) == n.subscribed_topics.len()
            &&& b.subrange(o3 + 4, o4) == topics_bytes(n.subscribed_topics)
            &&& bytes::le_value(b.subrange(o4, o4 + 2)) == n.quic_port
            &&& bytes::le_value(b.subrange(o4 + 2, o4 + 6)) == n.quic_addrs.len()
            &&& forall|k: int, j: int|
                #![trigger n.quic_addrs[k][j]]
                0 <= k < n.quic_addrs.len() && 0 <= j < 4 ==> b[o4 + 6 + 4 * k + j]
                    == n.quic_addrs[k][j]
        }),
{
    let b = node_bytes(n);
    let o1: int = 12 + text_bytes(n.node_name).len() as int;
    let o2: int = o1 + text_bytes(n.node_namespace).len();
    let o3: int = o2 + 4 + topics_bytes(n.published_topics).len();
    let o4: int = o3 + 4 + topics_bytes(n.subscribed_topics).len();
    bytes::lemma_byte_range_values();
    assert(stands_at(b, 0, b)) by {
        reveal(stands_at);
        assert(b.subrange(0, b.len() as int) =~= b);
    }
    lemma_node_parts(b, 0, n);
    lemma_number_stands(b, 0, n.node_id as nat, 8);
    lemma_number_stands(b, 8, n.domain_id as nat, 4);
    lemma_number_stands(b, o2, n.published_topics.len(), 4);
    lemma_number_stands(b, o3, n.subscribed_topics.len(), 4);
    lemma_number_stands(b, o4, n.quic_port as nat, 2);
    lemma_number_stands(b, o4 + 2, n.quic_addrs.len(), 4);
    lemma_addrs_bytes(n.quic_addrs);
    let part = addrs_bytes(n.quic_addrs);
    reveal(stands_at);
    assert forall|k: int, j: int|
        #![trigger n.quic_addrs[k][j]]
        0 <= k < n.quic_addrs.len() && 0 <= j < 4 implies b[o4 + 6 + 4 * k + j]
        == n.quic_addrs[k][j] by {
        assert(part[4 * k + j] == n.quic_addrs[k][j]);
        assert(b.subrange(o4 + 6, o4 + 6 + part.len())[4 * k + j] == b[o4 + 6 + 4 * k + j]);
    }
}

/// A request opens with a one and an answer with a two. Four bytes for the domain follow,
/// and in an answer four for the number of its nodes.
pub proof fn law_sync_layout(domain_id: u32, ns: Seq<NodeInfoView>)
    requires
        ns.len() < 0x1_0000_0000,
    ensures
        ({
            let q = request_bytes(domain_id);
            let a = response_bytes(domain_id, ns);
            &&& q.len() == 5
            &&& q[0] == 1
            &&& bytes::le_value(q.subrange(1, 5)) == domain_id
            &&& a.len() == 9 + nodes_bytes(ns).len()
            &&& a[0] == 2
            &&& bytes::le_value(a.subrange(1, 5)) == domain_id
            &&& bytes::le_value(a.subrange(5, 9)) == ns.len()
            &&& a.subrange(9, a.len() as int) == nodes_bytes(ns)
        }),
{
    broadcast use bytes::lemma_le_bytes_len;

    bytes::lemma_byte_range_values();
    let q = request_bytes(domain_id);
    let a = response_bytes(domain_id, ns);
    assert(q.subrange(1, 5) =~= bytes::le_bytes(domain_id as nat, 4));
    assert(a.subrange(1, 5) =~= bytes::le_bytes(domain_id as nat, 4));
    assert(a.subrange(5, 9) =~= bytes::le_bytes(ns.len(), 4));
    assert(a.subrange(9, a.len() as int) =~= nodes_bytes(ns));
    bytes::lemma_le_round_trip(domain_id as nat, 4);
    bytes::lemma_le_round_trip(ns.len(), 4);
}

/// No message reads as two: what reads as an answer opens with a two, and what reads as a
/// request, or brings a sender's nodes, opens with a one.
pub proof fn law_message_is_told_by_its_first_byte(buf: Seq<u8>)
    ensures
        is_request(buf) <==> buf.len() >= 5 && buf[0] == 1,
        response_value(buf) is Ok ==> buf.len() >= 9 && buf[0] == 2,
        push_value(buf) matches Ok(Some(_)) ==> buf.len() >= 22 && buf[0] == 1 && buf[13] == 2,
        push_value(buf) matches Ok(None) ==> buf.len() == 5,
{
}

/// A node is read with as many addresses as it tells, but with no more than eight.
pub proof fn law_at_most_eight_addresses(buf: Seq<u8>, off: int)
    ensures
        node_at(buf, off) matches Ok(x) ==> x.0.quic_addrs.len() <= 8,
{
}

/// An answer is read with as many nodes as it tells.
pub proof fn law_as_many_nodes_as_told(buf: Seq<u8>)
    ensures
        response_value(buf) matches Ok(x) ==> x.1.len() == bytes::le_value(buf.subrange(5, 9)),
        response_value(buf) matches Ok(x) ==> x.0 == bytes::le_value(buf.subrange(1, 5)) as u32,
{
    if response_value(buf) is Ok {
        lemma_as_many_nodes(buf, 9, number_at(buf, 5, 4));
    }
}

proof fn lemma_as_many_nodes(buf: Seq<u8>, off: int, n: nat)
    ensures
        nodes_at(buf, off, n) matches Ok(x) ==> x.0.len() == n,
    decreases n,
{
    if n > 0 {
        lemma_as_many_nodes(buf, off, (n - 1) as nat);
    }
}

} // verus!
