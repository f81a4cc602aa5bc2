//! From the node table to what is reported to another daemon, and from what another
//! daemon reports back into the node table.
use vstd::prelude::*;
use vstd::utf8::*;

use crate::bytes::bytes_equal;
use crate::daemon::discovery_shm;
use crate::daemon::discovery_shm::{
    position_in_state, position_of_node, NodeTableEntry, NodeView,
    ShmDiscovery, ShmHeader, SlotState, TopicEntry, TopicView, MAX_MATCHES, MAX_NODE_NAME_LEN,
    MAX_NODE_NS_LEN, MAX_QUIC_ADDRS, MAX_TOPICS_PER_NODE, MAX_TOPIC_NAME_LEN, MAX_TOPIC_TYPE_LEN,
};
#[allow(unused_imports)]
use crate::daemon::linking;
use crate::daemon::linking::addr_equal;
use crate::daemon::match_list;
use crate::daemon::match_list::{drop_table_matches, id_listed, remove_matches_for_nodes};
use crate::daemon::peer_sync;
use crate::daemon::peer_sync::{
    decode_sync_request, decode_sync_request_push, encode_pong, encode_sync_response, NodeInfoView,
    PeerNodeInfo, PeerTopicInfo, TopicInfoView, MSG_PING, MSG_SYNC_REQUEST,
};
use crate::text::utf8_text;

verus! {

/// The bytes before the first zero, or all of them.
pub open spec fn until_zero(b: Seq<u8>) -> Seq<u8>
    decreases b.len(),
{
    if b.len() == 0 || b[0] == 0 {
        Seq::empty()
    } else {
        seq![b[0]] + until_zero(b.subrange(1, b.len() as int))
    }
}

/// The text in a name field, or `default` where it is not valid UTF-8.
pub open spec fn field_text(b: Seq<u8>, default: Seq<char>) -> Seq<char> {
    if valid_utf8(until_zero(b)) {
        decode_utf8(until_zero(b))
    } else {
        default
    }
}

/// The text in a name field, or `default` where there is none.
pub open spec fn field_text_or(b: Seq<u8>, default: Seq<char>) -> Seq<char> {
    let t = field_text(b, default);
    if t.len() == 0 {
        default
    } else {
        t
    }
}

/// A topic as it is reported: its own node name and namespace where it has them,
/// else those of its node.
pub open spec fn reported_topic(
    t: TopicView,
    node_name: Seq<char>,
    node_namespace: Seq<char>,
) -> TopicInfoView {
    TopicInfoView {
        hash: t.hash,
        type_hash: t.type_hash,
        qos_reliability: t.qos_reliability,
        qos_durability: t.qos_durability,
        qos_history_kind: t.qos_history_kind,
        qos_history_depth: t.qos_history_depth,
        qos_deadline_sec: t.qos_deadline_sec,
        qos_deadline_nsec: t.qos_deadline_nsec,
        qos_lifespan_sec: t.qos_lifespan_sec,
        qos_lifespan_nsec: t.qos_lifespan_nsec,
        qos_liveliness: t.qos_liveliness,
        qos_liveliness_lease_sec: t.qos_liveliness_lease_sec,
        qos_liveliness_lease_nsec: t.qos_liveliness_lease_nsec,
        name: field_text(t.topic_name, Seq::empty()),
        topic_type: field_text(t.topic_type, Seq::empty()),
        node_name: field_text_or(t.node_name, node_name),
        node_namespace: field_text_or(t.node_namespace, node_namespace),
    }
}

/// A slot as it is reported.
pub open spec fn reported_node(
    e: NodeView,
    node_name: Seq<char>,
    node_namespace: Seq<char>,
) -> NodeInfoView {
    NodeInfoView {
        node_id: e.node_id,
        domain_id: e.domain_id,
        published_topics: e.pubs().map_values(
            |t: TopicView| reported_topic(t, node_name, node_namespace),
        ),
        subscribed_topics: e.subs().map_values(
            |t: TopicView| reported_topic(t, node_name, node_namespace),
        ),
        quic_port: e.quic_port,
        quic_addrs: linking::reach(e),
        node_name,
        node_namespace,
    }
}

/// How many bytes stand before the first zero.
pub(crate) fn zero_at(b: &[u8]) -> (r: usize)
    ensures
        r <= b@.len(),
        b@.subrange(0, r as int) == until_zero(b@),
{
    let mut i: usize = 0;
    proof {
        assert(b@.subrange(0, b@.len() as int) =~= b@);
        assert(until_zero(b@) =~= b@.subrange(0, 0) + until_zero(
            b@.subrange(0, b@.len() as int),
        ));
    }
    while i < b.len() && b[i] != 0
        invariant
            i <= b@.len(),
            until_zero(b@) == b@.subrange(0, i as int) + until_zero(
                b@.subrange(i as int, b@.len() as int),
            ),
        decreases b@.len() - i,
    {
        proof {
            let rest = b@.subrange(i as int, b@.len() as int);
            assert(rest.subrange(1, rest.len() as int) =~= b@.subrange(i + 1, b@.len() as int));
            assert(b@.subrange(0, i as int) + (seq![rest[0]] + until_zero(
                b@.subrange(i + 1, b@.len() as int),
            )) =~= b@.subrange(0, i + 1) + until_zero(b@.subrange(i + 1, b@.len() as int)));
        }
        i += 1;
    }
    proof {
        assert(until_zero(b@.subrange(i as int, b@.len() as int)) =~= Seq::empty());
        assert(b@.subrange(0, i as int) + Seq::empty() =~= b@.subrange(0, i as int));
    }
    i
}

/// The text in a name field, or `default` where it is not valid UTF-8.
fn text_in_field(b: &[u8], default: &str) -> (r: String)
    ensures
        r@ == field_text(b@, default@),
{
    let end: usize = zero_at(b);
    match utf8_text(vstd::slice::slice_subrange(b, 0, end)) {
        Some(s) => s.to_owned(),
        None => default.to_owned(),
    }
}

/// The text in a name field, or `default` where there is none.
fn text_in_field_or(b: &[u8], default: &str) -> (r: String)
    ensures
        r@ == field_text_or(b@, default@),
{
    let t = text_in_field(b, default);
    if t.as_str().is_empty() {
        default.to_owned()
    } else {
        t
    }
}

fn report_topic(t: &TopicEntry, node_name: &str, node_namespace: &str) -> (r: PeerTopicInfo)
    ensures
        r@ == reported_topic(t@, node_name@, node_namespace@),
{
    let name = text_in_field(t.topic_name.as_slice(), "");
    let topic_type = text_in_field(t.topic_type.as_slice(), "");
    let own_name = text_in_field_or(t.node_name.as_slice(), node_name);
    let own_namespace = text_in_field_or(t.node_namespace.as_slice(), node_namespace);
    proof {
        reveal_strlit("");
        assert(""@ =~= Seq::empty());
    }
    PeerTopicInfo {
        hash: t.hash,
        type_hash: t.type_hash,
        qos_reliability: t.qos_reliability,
        qos_durability: t.qos_durability,
        qos_history_kind: t.qos_history_kind,
        qos_history_depth: t.qos_history_depth,
        qos_deadline_sec: t.qos_deadline_sec,
        qos_deadline_nsec: t.qos_deadline_nsec,
        qos_lifespan_sec: t.qos_lifespan_sec,
        qos_lifespan_nsec: t.qos_lifespan_nsec,
        qos_liveliness: t.qos_liveliness,
        qos_liveliness_lease_sec: t.qos_liveliness_lease_sec,
        qos_liveliness_lease_nsec: t.qos_liveliness_lease_nsec,
        name,
        topic_type,
        node_name: own_name,
        node_namespace: own_namespace,
    }
}

fn report_topics(topics: &Vec<TopicEntry>, count: usize, node_name: &str, node_namespace: &str) -> (r:
    Vec<PeerTopicInfo>)
    requires
        count <= topics@.len(),
    ensures
        peer_sync::infos_view(r@) == discovery_shm::topics_view(topics@).subrange(
            0,
            count as int,
        ).map_values(|t: TopicView| reported_topic(t, node_name@, node_namespace@)),
{
    let mut r: Vec<PeerTopicInfo> = Vec::new();
    let mut i: usize = 0;
    while i < count
        invariant
            i <= count <= topics@.len(),
            r@.len() == i,
            forall|k: int|
                0 <= k < i ==> (#[trigger] r@[k])@ == reported_topic(
                    topics@[k]@,
                    node_name@,
                    node_namespace@,
                ),
        decreases count - i,
    {
        r.push(report_topic(&topics[i], node_name, node_namespace));
        i += 1;
    }
    proof {
        assert(peer_sync::infos_view(r@) =~= discovery_shm::topics_view(topics@).subrange(
            0,
            count as int,
        ).map_values(|t: TopicView| reported_topic(t, node_name@, node_namespace@)));
    }
    r
}

/// A slot as it is reported to another daemon.
pub fn node_entry_to_info(entry: &NodeTableEntry, node_name: &str, node_namespace: &str) -> (r:
    PeerNodeInfo)
    requires
        entry@.shaped(),
        entry@.counts_fit(),
    ensures
        r@ == reported_node(entry@, node_name@, node_namespace@),
{
    let published_topics = report_topics(
        &entry.published_topics,
        entry.pub_count as usize,
        node_name,
        node_namespace,
    );
    let subscribed_topics = report_topics(
        &entry.subscribed_topics,
        entry.sub_count as usize,
        node_name,
        node_namespace,
    );
    let n: usize = if entry.quic_addr_count as usize <= MAX_QUIC_ADDRS {
        entry.quic_addr_count as usize
    } else {
        MAX_QUIC_ADDRS
    };
    let mut quic_addrs: Vec<[u8; 4]> = Vec::new();
    let mut i: usize = 0;
    while i < n
        invariant
            i <= n <= MAX_QUIC_ADDRS,
            quic_addrs@ == entry.quic_addrs@.subrange(0, i as int),
        decreases n - i,
    {
        quic_addrs.push(entry.quic_addrs[i]);
        i += 1;
        proof {
            assert(quic_addrs@ =~= entry.quic_addrs@.subrange(0, i as int));
        }
    }
    PeerNodeInfo {
        node_id: entry.node_id,
        domain_id: entry.domain_id,
        published_topics,
        subscribed_topics,
        quic_port: entry.quic_port,
        quic_addrs,
        node_name: node_name.to_owned(),
        node_namespace: node_namespace.to_owned(),
    }
}

/// Whether a slot is reported to daemons that ask for the domain: it is active, in
/// that domain, of this host, and its process is alive where it has one.
pub open spec fn reports(e: NodeView, domain_id: u32, process_alive: bool) -> bool {
    &&& e.state == SlotState::Active.spec_value()
    &&& e.domain_id == domain_id
    &&& e.daemon_origin == 0
    &&& (e.pid > 0 ==> process_alive)
}

/// The slots that are reported, in table order.
pub open spec fn reported_nodes(table: Seq<NodeView>, domain_id: u32, alive: Seq<bool>) -> Seq<
    NodeInfoView,
>
    decreases table.len(),
{
    if table.len() == 0 {
        Seq::empty()
    } else {
        let rest = reported_nodes(table.drop_last(), domain_id, alive);
        let last = table.last();
        if reports(last, domain_id, alive[table.len() - 1]) {
            rest.push(
                reported_node(
                    last,
                    field_text(last.node_name, Seq::empty()),
                    field_text(last.node_namespace, "/"@),
                ),
            )
        } else {
            rest
        }
    }
}

/// The nodes of this host in a domain, as they are reported to another daemon.
///
/// `process_alive` says of each slot whether its process was found alive.
pub fn collect_domain_nodes(shm: &ShmDiscovery, domain_id: u32, process_alive: &[bool]) -> (r: Vec<
    PeerNodeInfo,
>)
    requires
        shm.wf(),
        process_alive@.len() == shm.node_table@.len(),
        forall|i: int|
            0 <= i < shm.table().len() && reports(
                #[trigger] shm.table()[i],
                domain_id,
                process_alive@[i],
            ) ==> shm.table()[i].counts_fit(),
    ensures
        peer_sync::nodes_view(r@) == reported_nodes(shm.table(), domain_id, process_alive@),
{
    let ghost view = shm.table();
    let mut nodes: Vec<PeerNodeInfo> = Vec::new();
    let mut i: usize = 0;
    proof {
        assert(view.subrange(0, 0) =~= Seq::empty());
        assert(peer_sync::nodes_view(nodes@) =~= Seq::empty());
        reveal_strlit("");
        assert(""@ =~= Seq::empty());
    }
    while i < shm.node_table.len()
        invariant
            i <= shm.node_table@.len() == process_alive@.len(),
            view == shm.table(),
            shm.wf(),
            forall|i: int|
                0 <= i < view.len() && reports(#[trigger] view[i], domain_id, process_alive@[i])
                    ==> view[i].counts_fit(),
            ""@ == Seq::<char>::empty(),
            peer_sync::nodes_view(nodes@) == reported_nodes(
                view.subrange(0, i as int),
                domain_id,
                process_alive@,
            ),
        decreases shm.node_table@.len() - i,
    {
        let entry = &shm.node_table[i];
        proof {
            assert(view.subrange(0, i + 1).drop_last() =~= view.subrange(0, i as int));
            assert(view.subrange(0, i + 1).last() == entry@);
            assert(view[i as int] == entry@);
            assert(view[i as int].shaped());
        }
        if entry.state == SlotState::Active.value() && entry.domain_id == domain_id
            && entry.daemon_origin == 0 && (entry.pid == 0 || process_alive[i]) {
            let name = text_in_field(entry.node_name.as_slice(), "");
            let ns = text_in_field(entry.node_namespace.as_slice(), "/");
            let ghost before = nodes@;
            assert(view[i as int].counts_fit());
            let info = node_entry_to_info(entry, &name, &ns);
            nodes.push(info);
            proof {
                assert(peer_sync::nodes_view(nodes@) =~= peer_sync::nodes_view(before).push(info@));
            }
        }
        i += 1;
    }
    proof {
        assert(view.subrange(0, i as int) =~= view);
    }
    nodes
}

/// A name field of `n` bytes that holds as much of the text as fits before a final
/// zero.
pub open spec fn padded(text: Seq<char>, n: nat) -> Seq<u8> {
    let b = encode_utf8(text);
    Seq::new(
        n,
        |i: int|
            if i < b.len() && i < n - 1 {
                b[i]
            } else {
                0u8
            },
    )
}

/// Writes a text into a name field.
pub fn copy_str<const N: usize>(dst: &mut [u8; N], value: &str)
    ensures
        final(dst)@ == padded(value@, N as nat),
{
    let bytes = value.as_bytes();
    let mut i: usize = 0;
    while i < N
        invariant
            i <= N,
            bytes@ == encode_utf8(value@),
            forall|k: int| 0 <= k < i ==> (#[trigger] dst@[k]) == padded(value@, N as nat)[k],
        decreases N - i,
    {
        dst[i] = if i < bytes.len() && i < N - 1 {
            bytes[i]
        } else {
            0
        };
        i += 1;
    }
    proof {
        assert(dst@ =~= padded(value@, N as nat));
    }
}

/// The topic entry of a reported topic.
pub open spec fn entry_of_topic(t: TopicInfoView) -> TopicView {
    TopicView {
        hash: t.hash,
        type_hash: t.type_hash,
        qos_reliability: t.qos_reliability,
        qos_durability: t.qos_durability,
        qos_history_kind: t.qos_history_kind,
        qos_history_depth: t.qos_history_depth,
        qos_deadline_sec: t.qos_deadline_sec,
        qos_deadline_nsec: t.qos_deadline_nsec,
        qos_lifespan_sec: t.qos_lifespan_sec,
        qos_lifespan_nsec: t.qos_lifespan_nsec,
        qos_liveliness: t.qos_liveliness,
        qos_liveliness_lease_sec: t.qos_liveliness_lease_sec,
        qos_liveliness_lease_nsec: t.qos_liveliness_lease_nsec,
        topic_name: padded(t.name, MAX_TOPIC_NAME_LEN as nat),
        topic_type: padded(t.topic_type, MAX_TOPIC_TYPE_LEN as nat),
        node_name: padded(t.node_name, MAX_NODE_NAME_LEN as nat),
        node_namespace: padded(t.node_namespace, MAX_NODE_NS_LEN as nat),
    }
}

/// The topic entry of a reported topic.
pub fn topic_info_to_entry(topic: &PeerTopicInfo) -> (r: TopicEntry)
    ensures
        r@ == entry_of_topic(topic@),
{
    let mut entry = TopicEntry {
        hash: topic.hash,
        type_hash: topic.type_hash,
        qos_reliability: topic.qos_reliability,
        qos_durability: topic.qos_durability,
        qos_history_kind: topic.qos_history_kind,
        qos_history_depth: topic.qos_history_depth,
        qos_deadline_sec: topic.qos_deadline_sec,
        qos_deadline_nsec: topic.qos_deadline_nsec,
        qos_lifespan_sec: topic.qos_lifespan_sec,
        qos_lifespan_nsec: topic.qos_lifespan_nsec,
        qos_liveliness: topic.qos_liveliness,
        qos_liveliness_lease_sec: topic.qos_liveliness_lease_sec,
        qos_liveliness_lease_nsec: topic.qos_liveliness_lease_nsec,
        topic_name: [0u8; 128],
        topic_type: [0u8; 128],
        node_name: [0u8; 128],
        node_namespace: [0u8; 128],
    };
    copy_str(&mut entry.topic_name, &topic.name);
    copy_str(&mut entry.topic_type, &topic.topic_type);
    copy_str(&mut entry.node_name, &topic.node_name);
    copy_str(&mut entry.node_namespace, &topic.node_namespace);
    entry
}

/// Whether two topic entries are equal.
fn topic_entry_equal(a: &TopicEntry, b: &TopicEntry) -> (r: bool)
    ensures
        r == (a@ == b@),
{
    a.hash == b.hash && a.type_hash == b.type_hash && a.qos_reliability == b.qos_reliability
        && a.qos_durability == b.qos_durability && a.qos_history_kind == b.qos_history_kind
        && a.qos_history_depth == b.qos_history_depth && a.qos_deadline_sec == b.qos_deadline_sec
        && a.qos_deadline_nsec == b.qos_deadline_nsec && a.qos_lifespan_sec == b.qos_lifespan_sec
        && a.qos_lifespan_nsec == b.qos_lifespan_nsec && a.qos_liveliness == b.qos_liveliness
        && a.qos_liveliness_lease_sec == b.qos_liveliness_lease_sec && a.qos_liveliness_lease_nsec
        == b.qos_liveliness_lease_nsec && bytes_equal(
        a.topic_name.as_slice(),
        b.topic_name.as_slice(),
    ) && bytes_equal(a.topic_type.as_slice(), b.topic_type.as_slice()) && bytes_equal(
        a.node_name.as_slice(),
        b.node_name.as_slice(),
    ) && bytes_equal(a.node_namespace.as_slice(), b.node_namespace.as_slice())
}

/// How many of `len` things fit into `cap` places.
pub open spec fn clipped(len: nat, cap: nat) -> nat {
    if len <= cap {
        len
    } else {
        cap
    }
}

/// Whether the first topics of a slot are exactly the reported ones, as far as there
/// is room for them.
pub open spec fn same_topics(count: u32, entries: Seq<TopicView>, topics: Seq<TopicInfoView>) -> bool {
    &&& count == clipped(topics.len(), entries.len())
    &&& forall|k: int|
        0 <= k < clipped(topics.len(), entries.len()) ==> (#[trigger] entries[k])
            == entry_of_topic(topics[k])
}

/// Whether a slot already has the endpoint and the topics of a reported node.
pub open spec fn same_endpoints(e: NodeView, n: NodeInfoView) -> bool {
    &&& e.domain_id == n.domain_id
    &&& e.quic_port == n.quic_port
    &&& e.quic_addr_count == clipped(n.quic_addrs.len(), MAX_QUIC_ADDRS as nat)
    &&& linking::reach(e) == linking::first_addrs(n.quic_addrs, MAX_QUIC_ADDRS as int)
    &&& same_topics(e.pub_count, e.published_topics, n.published_topics)
    &&& same_topics(e.sub_count, e.subscribed_topics, n.subscribed_topics)
}

fn topics_match(count: u32, entries: &Vec<TopicEntry>, topics: &Vec<PeerTopicInfo>) -> (r: bool)
    ensures
        r == same_topics(
            count,
            discovery_shm::topics_view(entries@),
            peer_sync::infos_view(topics@),
        ),
{
    let ghost ev = discovery_shm::topics_view(entries@);
    let ghost tv = peer_sync::infos_view(topics@);
    let n: usize = if topics.len() <= entries.len() {
        topics.len()
    } else {
        entries.len()
    };
    if count as usize != n {
        return false;
    }
    let mut k: usize = 0;
    while k < n
        invariant
            k <= n <= entries@.len(),
            n <= topics@.len(),
            n == clipped(tv.len(), ev.len()),
            ev == discovery_shm::topics_view(entries@),
            tv == peer_sync::infos_view(topics@),
            forall|j: int| 0 <= j < k ==> (#[trigger] ev[j]) == entry_of_topic(tv[j]),
        decreases n - k,
    {
        let incoming = topic_info_to_entry(&topics[k]);
        assert(ev[k as int] == entries@[k as int]@);
        assert(tv[k as int] == topics@[k as int]@);
        if !topic_entry_equal(&entries[k], &incoming) {
            return false;
        }
        k += 1;
    }
    true
}

/// Whether a slot already has the endpoint and the topics of a reported node.
pub fn peer_node_endpoints_match(entry: &NodeTableEntry, node: &PeerNodeInfo) -> (r: bool)
    requires
        entry@.shaped(),
    ensures
        r == same_endpoints(entry@, node@),
{
    let n: usize = if node.quic_addrs.len() <= MAX_QUIC_ADDRS {
        node.quic_addrs.len()
    } else {
        MAX_QUIC_ADDRS
    };
    if entry.domain_id != node.domain_id || entry.quic_port != node.quic_port
        || entry.quic_addr_count as usize != n {
        return false;
    }
    let ghost a = linking::reach(entry@);
    let ghost b = linking::first_addrs(node.quic_addrs@, MAX_QUIC_ADDRS as int);
    let mut k: usize = 0;
    while k < n
        invariant
            k <= n <= MAX_QUIC_ADDRS,
            n <= node.quic_addrs@.len(),
            a == entry.quic_addrs@.subrange(0, n as int),
            b == node.quic_addrs@.subrange(0, n as int),
            a == linking::reach(entry@),
            b == linking::first_addrs(node@.quic_addrs, MAX_QUIC_ADDRS as int),
            forall|j: int| 0 <= j < k ==> a[j] == b[j],
        decreases n - k,
    {
        if !addr_equal(&entry.quic_addrs[k], &node.quic_addrs[k]) {
            assert(a[k as int] != b[k as int]);
            return false;
        }
        k += 1;
    }
    proof {
        assert(a =~= b);
    }
    topics_match(entry.pub_count, &entry.published_topics, &node.published_topics) && topics_match(
        entry.sub_count,
        &entry.subscribed_topics,
        &node.subscribed_topics,
    )
}

/// Clears a slot.
pub fn clear_node_entry(entry: &mut NodeTableEntry)
    ensures
        final(entry)@ == discovery_shm::blank_node(),
{
    *entry = NodeTableEntry::default();
}

/// The table without the matches of a node.
pub open spec fn without_node(table: Seq<NodeView>, node_id: u64) -> Seq<NodeView> {
    match_list::drop_matches_everywhere(table, seq![node_id], false, true)
}

/// Drops the matches of a node from every active slot.
pub fn remove_matches_for_node(node_table: &mut Vec<NodeTableEntry>, dead_node_id: u64)
    requires
        discovery_shm::table_shaped(discovery_shm::table_view(old(node_table)@)),
    ensures
        discovery_shm::table_view(final(node_table)@) == without_node(
            discovery_shm::table_view(old(node_table)@),
            dead_node_id,
        ),
        discovery_shm::table_shaped(discovery_shm::table_view(final(node_table)@)),
        final(node_table)@.len() == old(node_table)@.len(),
{
    let one: [u64; 1] = [dead_node_id];
    let ghost before = discovery_shm::table_view(node_table@);
    drop_table_matches(node_table, one.as_slice(), false, true);
    proof {
        assert(one@ =~= seq![dead_node_id]);
        assert(discovery_shm::table_view(node_table@).len() == before.len());
    }
}

/// Whether a slot has to go before nodes from `origin` are merged: it came from there
/// and is not reported any more, or another daemon reported one of the same nodes.
pub open spec fn superseded(e: NodeView, origin: u64, ids: Seq<u64>) -> bool {
    &&& e.state != SlotState::Empty.spec_value()
    &&& {
        ||| (e.daemon_origin == origin && !ids.contains(e.node_id))
        ||| (e.daemon_origin != 0 && e.daemon_origin != origin && ids.contains(e.node_id))
    }
}

/// The table with the superseded slots cleared.
pub open spec fn swept(table: Seq<NodeView>, origin: u64, ids: Seq<u64>) -> Seq<NodeView> {
    table.map_values(
        |e: NodeView|
            if superseded(e, origin, ids) {
                discovery_shm::blank_node()
            } else {
                e
            },
    )
}

/// The nodes in superseded slots, in table order.
pub open spec fn swept_ids(table: Seq<NodeView>, origin: u64, ids: Seq<u64>) -> Seq<u64>
    decreases table.len(),
{
    if table.len() == 0 {
        Seq::empty()
    } else {
        let rest = swept_ids(table.drop_last(), origin, ids);
        let last = table.last();
        if superseded(last, origin, ids) && last.node_id != 0 {
            rest.push(last.node_id)
        } else {
            rest
        }
    }
}

/// The nodes that are reported.
pub open spec fn node_ids(ns: Seq<NodeInfoView>) -> Seq<u64> {
    ns.map_values(|n: NodeInfoView| n.node_id)
}

/// The topic entries of the reported topics, as far as there is room for them, and
/// blank entries behind them.
pub open spec fn topic_slots(topics: Seq<TopicInfoView>) -> Seq<TopicView> {
    Seq::new(
        MAX_TOPICS_PER_NODE as nat,
        |i: int|
            if i < topics.len() {
                entry_of_topic(topics[i])
            } else {
                discovery_shm::blank_topic()
            },
    )
}

/// The reported addresses, as far as there is room for them, and blank addresses
/// behind them.
pub open spec fn addr_slots(addrs: Seq<[u8; 4]>) -> Seq<[u8; 4]> {
    Seq::new(
        MAX_QUIC_ADDRS as nat,
        |i: int|
            if i < addrs.len() {
                addrs[i]
            } else {
                [0u8, 0u8, 0u8, 0u8]
            },
    )
}

/// A slot once a reported node is written into it. Its matches and its generation
/// stay.
pub open spec fn installed(e: NodeView, n: NodeInfoView, origin: u64, now: u64) -> NodeView {
    NodeView {
        state: SlotState::Active.spec_value(),
        domain_id: n.domain_id,
        pid: 0,
        proc_starttime: 0,
        pub_count: clipped(n.published_topics.len(), MAX_TOPICS_PER_NODE as nat) as u32,
        sub_count: clipped(n.subscribed_topics.len(), MAX_TOPICS_PER_NODE as nat) as u32,
        quic_port: n.quic_port,
        match_count: e.match_count,
        node_id: n.node_id,
        response_gen: e.response_gen,
        quic_addr_count: clipped(n.quic_addrs.len(), MAX_QUIC_ADDRS as nat) as u32,
        quic_addrs: addr_slots(n.quic_addrs),
        daemon_origin: origin,
        last_seen_secs: now,
        node_name: padded(n.node_name, MAX_NODE_NAME_LEN as nat),
        node_namespace: padded(n.node_namespace, MAX_NODE_NS_LEN as nat),
        published_topics: topic_slots(n.published_topics),
        subscribed_topics: topic_slots(n.subscribed_topics),
        remote_matches: e.remote_matches,
    }
}

/// The table once a reported node is merged into it, if there is a slot for it: the
/// one that holds the node, else the first unused one. Where the node's endpoint or
/// topics changed, every match of it goes first.
pub open spec fn with_node(table: Seq<NodeView>, n: NodeInfoView, origin: u64, now: u64) -> Option<
    Seq<NodeView>,
> {
    match discovery_shm::slot_of_node(table, n.node_id) {
        Some(k) => {
            let base = if same_endpoints(table[k], n) {
                table
            } else {
                without_node(table, n.node_id)
            };
            Some(base.update(k, installed(base[k], n, origin, now)))
        },
        None => match discovery_shm::first_in_state(table, SlotState::Empty.spec_value()) {
            Some(k) => Some(
                table.update(k, installed(discovery_shm::blank_node(), n, origin, now)),
            ),
            None => None,
        },
    }
}

/// The table once the first `count` reported nodes are merged, and whether the table
/// was found full on the way, which ends the merge.
pub open spec fn with_nodes(
    table: Seq<NodeView>,
    ns: Seq<NodeInfoView>,
    origin: u64,
    now: u64,
    count: int,
) -> (Seq<NodeView>, bool)
    decreases count,
{
    if count <= 0 {
        (table, false)
    } else {
        let (prev, full) = with_nodes(table, ns, origin, now, count - 1);
        if full {
            (prev, true)
        } else {
            match with_node(prev, ns[count - 1], origin, now) {
                Some(next) => (next, false),
                None => (prev, true),
            }
        }
    }
}

/// The table before the reported nodes are written: superseded slots are cleared and
/// the matches of their nodes are gone.
pub open spec fn cleared_for(table: Seq<NodeView>, origin: u64, ns: Seq<NodeInfoView>) -> Seq<
    NodeView,
> {
    match_list::without_nodes(
        swept(table, origin, node_ids(ns)),
        swept_ids(table, origin, node_ids(ns)),
        true,
    )
}

/// The table once everything that daemon `origin` reported is merged into it.
pub open spec fn merged(
    table: Seq<NodeView>,
    origin: u64,
    ns: Seq<NodeInfoView>,
    now: u64,
) -> Seq<NodeView> {
    with_nodes(cleared_for(table, origin, ns), ns, origin, now, ns.len() as int).0
}

/// Writes topics over the topic entries of a slot.
fn topics_into_slots(topics: &Vec<PeerTopicInfo>) -> (r: Vec<TopicEntry>)
    ensures
        discovery_shm::topics_view(r@) == topic_slots(peer_sync::infos_view(topics@)),
{
    let ghost tv = peer_sync::infos_view(topics@);
    let mut r: Vec<TopicEntry> = Vec::new();
    let mut i: usize = 0;
    while i < MAX_TOPICS_PER_NODE
        invariant
            i <= MAX_TOPICS_PER_NODE,
            tv == peer_sync::infos_view(topics@),
            r@.len() == i,
            forall|k: int| 0 <= k < i ==> (#[trigger] r@[k])@ == topic_slots(tv)[k],
        decreases MAX_TOPICS_PER_NODE - i,
    {
        if i < topics.len() {
            r.push(topic_info_to_entry(&topics[i]));
        } else {
            r.push(TopicEntry::default());
        }
        i += 1;
    }
    proof {
        assert(discovery_shm::topics_view(r@) =~= topic_slots(tv));
    }
    r
}

/// Writes a reported node into a slot.
pub fn install_node(entry: &mut NodeTableEntry, node: &PeerNodeInfo, origin: u64, now: u64)
    ensures
        final(entry)@ == installed(old(entry)@, node@, origin, now),
{
    let ghost before = entry@;
    entry.node_id = node.node_id;
    entry.domain_id = node.domain_id;
    entry.pid = 0;
    entry.proc_starttime = 0;
    entry.quic_port = node.quic_port;
    let mut addrs: [[u8; 4]; 8] = [[0u8, 0u8, 0u8, 0u8]; 8];
    let addr_count: usize = if node.quic_addrs.len() <= MAX_QUIC_ADDRS {
        node.quic_addrs.len()
    } else {
        MAX_QUIC_ADDRS
    };
    let mut i: usize = 0;
    while i < addr_count
        invariant
            i <= addr_count <= MAX_QUIC_ADDRS,
            addr_count <= node.quic_addrs@.len(),
            forall|k: int| 0 <= k < i ==> (#[trigger] addrs@[k]) == node.quic_addrs@[k],
            forall|k: int|
                i <= k < MAX_QUIC_ADDRS ==> (#[trigger] addrs@[k]) == [0u8, 0u8, 0u8, 0u8],
        decreases addr_count - i,
    {
        addrs[i] = node.quic_addrs[i];
        i += 1;
    }
    entry.quic_addrs = addrs;
    entry.quic_addr_count = addr_count as u32;
    entry.daemon_origin = origin;
    entry.last_seen_secs = now;
    copy_str(&mut entry.node_name, &node.node_name);
    copy_str(&mut entry.node_namespace, &node.node_namespace);
    entry.pub_count = if node.published_topics.len() <= MAX_TOPICS_PER_NODE {
        node.published_topics.len() as u32
    } else {
        MAX_TOPICS_PER_NODE as u32
    };
    entry.published_topics = topics_into_slots(&node.published_topics);
    entry.sub_count = if node.subscribed_topics.len() <= MAX_TOPICS_PER_NODE {
        node.subscribed_topics.len() as u32
    } else {
        MAX_TOPICS_PER_NODE as u32
    };
    entry.subscribed_topics = topics_into_slots(&node.subscribed_topics);
    entry.state = SlotState::Active.value();
    proof {
        assert(entry@ =~= installed(before, node@, origin, now));
    }
}

/// Merges one reported node, and says whether there was a slot for it.
fn merge_node(table: &mut Vec<NodeTableEntry>, node: &PeerNodeInfo, origin: u64, now: u64) -> (r:
    bool)
    requires
        discovery_shm::table_shaped(discovery_shm::table_view(old(table)@)),
    ensures
        discovery_shm::table_shaped(discovery_shm::table_view(final(table)@)),
        final(table)@.len() == old(table)@.len(),
        match with_node(discovery_shm::table_view(old(table)@), node@, origin, now) {
            Some(next) => r && discovery_shm::table_view(final(table)@) == next,
            None => !r && discovery_shm::table_view(final(table)@) == discovery_shm::table_view(
                old(table)@,
            ),
        },
{
    let ghost before = discovery_shm::table_view(table@);
    match position_of_node(table, node.node_id) {
        Some(k) => {
            proof {
                discovery_shm::lemma_slot_of_node(before, node.node_id);
                assert(before[k as int] == table@[k as int]@);
                assert(before[k as int].shaped());
            }
            if !peer_node_endpoints_match(&table[k], node) {
                remove_matches_for_node(table, node.node_id);
            }
            let ghost base = discovery_shm::table_view(table@);
            assert(base[k as int] == table@[k as int]@);
            assert(base[k as int].shaped());
            install_node(&mut table[k], node, origin, now);
            proof {
                let next = base.update(k as int, installed(base[k as int], node@, origin, now));
                assert(discovery_shm::table_view(table@) =~= next);
                lemma_update_shaped(base, k as int, installed(base[k as int], node@, origin, now));
            }
            true
        },
        None => match position_in_state(table, SlotState::Empty.value()) {
            Some(k) => {
                proof {
                    discovery_shm::lemma_first_in_state(before, SlotState::Empty.spec_value());
                }
                clear_node_entry(&mut table[k]);
                install_node(&mut table[k], node, origin, now);
                proof {
                    let fresh = installed(discovery_shm::blank_node(), node@, origin, now);
                    assert(discovery_shm::table_view(table@) =~= before.update(k as int, fresh));
                    lemma_update_shaped(before, k as int, fresh);
                }
                true
            },
            None => false,
        },
    }
}

pub(crate) proof fn lemma_update_shaped(table: Seq<NodeView>, k: int, e: NodeView)
    requires
        discovery_shm::table_shaped(table),
        0 <= k < table.len(),
        e.shaped(),
    ensures
        discovery_shm::table_shaped(table.update(k, e)),
{
    assert forall|i: int| 0 <= i < table.len() implies (
    #[trigger] table.update(k, e)[i]).shaped() by {
        if i != k {
            assert(table[i].shaped());
        }
    }
}

/// Clears the superseded slots and drops the matches of their nodes.
fn sweep(table: &mut Vec<NodeTableEntry>, origin: u64, ids: &[u64])
    requires
        discovery_shm::table_shaped(discovery_shm::table_view(old(table)@)),
    ensures
        discovery_shm::table_shaped(discovery_shm::table_view(final(table)@)),
        final(table)@.len() == old(table)@.len(),
        discovery_shm::table_view(final(table)@) == match_list::without_nodes(
            swept(discovery_shm::table_view(old(table)@), origin, ids@),
            swept_ids(discovery_shm::table_view(old(table)@), origin, ids@),
            true,
        ),
{
    let ghost before = discovery_shm::table_view(table@);
    let mut cleared: Vec<u64> = Vec::new();
    let mut i: usize = 0;
    proof {
        assert(before.subrange(0, 0) =~= Seq::empty());
    }
    while i < table.len()
        invariant
            i <= table@.len(),
            table@.len() == before.len(),
            discovery_shm::table_shaped(before),
            forall|k: int|
                0 <= k < i ==> (#[trigger] table@[k])@ == swept(before, origin, ids@)[k],
            forall|k: int| i <= k < before.len() ==> (#[trigger] table@[k])@ == before[k],
            cleared@ == swept_ids(before.subrange(0, i as int), origin, ids@),
        decreases table@.len() - i,
    {
        let ghost prior = table@;
        proof {
            assert(before.subrange(0, i + 1).drop_last() =~= before.subrange(0, i as int));
            assert(before.subrange(0, i + 1).last() == before[i as int]);
            assert(table@[i as int]@ == before[i as int]);
        }
        let node_id: u64 = table[i].node_id;
        let from: u64 = table[i].daemon_origin;
        let reported = id_listed(ids, node_id);
        if table[i].state != SlotState::Empty.value() && ((from == origin && !reported) || (from
            != 0 && from != origin && reported)) {
            clear_node_entry(&mut table[i]);
            if node_id != 0 {
                cleared.push(node_id);
            }
        }
        proof {
            assert forall|k: int| 0 <= k < i implies (#[trigger] table@[k]) == prior[k] by {}
        }
        i += 1;
    }
    proof {
        assert(before.subrange(0, i as int) =~= before);
        let view = discovery_shm::table_view(table@);
        assert(view =~= swept(before, origin, ids@));
        assert forall|k: int| 0 <= k < view.len() implies (#[trigger] view[k]).shaped() by {
            assert(before[k].shaped());
        }
    }
    remove_matches_for_nodes(table, &cleared, true);
}

/// The nodes that are reported.
pub(crate) fn ids_of(nodes: &[PeerNodeInfo]) -> (r: Vec<u64>)
    ensures
        r@ == node_ids(peer_sync::nodes_view(nodes@)),
{
    let mut ids: Vec<u64> = Vec::new();
    let mut i: usize = 0;
    while i < nodes.len()
        invariant
            i <= nodes@.len(),
            ids@.len() == i,
            forall|k: int| 0 <= k < i ==> (#[trigger] ids@[k]) == nodes@[k].node_id,
        decreases nodes@.len() - i,
    {
        ids.push(nodes[i].node_id);
        i += 1;
    }
    proof {
        assert(ids@ =~= node_ids(peer_sync::nodes_view(nodes@)));
    }
    ids
}

/// Once the table was found full, the rest is not merged.
proof fn lemma_full_ends(
    table: Seq<NodeView>,
    ns: Seq<NodeInfoView>,
    origin: u64,
    now: u64,
    k: int,
    n: int,
)
    requires
        0 <= k <= n,
        with_nodes(table, ns, origin, now, k).1,
    ensures
        with_nodes(table, ns, origin, now, n) == with_nodes(table, ns, origin, now, k),
    decreases n,
{
    if k < n {
        lemma_full_ends(table, ns, origin, now, k, n - 1);
    }
}

/// Merges everything that a daemon reported into the node table. Reports without a
/// sender are ignored.
pub fn merge_remote_nodes(
    shm: &mut ShmDiscovery,
    daemon_origin: u64,
    nodes: &[PeerNodeInfo],
    now_secs: u64,
)
    requires
        old(shm).wf(),
    ensures
        final(shm).wf(),
        daemon_origin == 0 ==> final(shm).table() == old(shm).table() && final(shm).header == old(
            shm,
        ).header,
        daemon_origin != 0 ==> final(shm).table() == merged(
            old(shm).table(),
            daemon_origin,
            peer_sync::nodes_view(nodes@),
            now_secs,
        ) && final(shm).header == (ShmHeader {
            generation: match_list::next_generation(old(shm).header.generation),
            ..old(shm).header
        }),
{
    if daemon_origin == 0 {
        return;
    }
    let ghost before = shm.table();
    let ghost ns = peer_sync::nodes_view(nodes@);
    let ids = ids_of(nodes);
    sweep(&mut shm.node_table, daemon_origin, &ids);
    let ghost base = cleared_for(before, daemon_origin, ns);
    let mut i: usize = 0;
    let mut full = false;
    while i < nodes.len() && !full
        invariant
            i <= nodes@.len(),
            shm.wf(),
            shm.header == old(shm).header,
            ns == peer_sync::nodes_view(nodes@),
            with_nodes(base, ns, daemon_origin, now_secs, i as int) == (shm.table(), full),
        decreases nodes@.len() - i,
    {
        assert(ns[i as int] == nodes@[i as int]@);
        full = !merge_node(&mut shm.node_table, &nodes[i], daemon_origin, now_secs);
        i += 1;
    }
    proof {
        if full {
            lemma_full_ends(base, ns, daemon_origin, now_secs, i as int, ns.len() as int);
        }
    }
    shm.header.generation = shm.header.generation.wrapping_add(1);
}

/// What a daemon answers to a message from another, or why it refuses, and whether
/// the message brings nodes to merge.
pub open spec fn sync_reply_domain(data: Seq<u8>) -> Result<Option<u32>, Seq<char>> {
    if data.len() == 0 || data[0] == MSG_PING {
        Ok(None)
    } else if data[0] != MSG_SYNC_REQUEST {
        Err("unsupported daemon sync message"@)
    } else if !peer_sync::is_request(data) {
        Err("bad sync request"@)
    } else {
        match peer_sync::push_value(data) {
            Err(e) => Err(e),
            Ok(_) => Ok(Some(peer_sync::number_at(data, 1, 4) as u32)),
        }
    }
}

/// The table after a message: a request that brings nodes has them merged.
pub open spec fn table_after_sync(table: Seq<NodeView>, data: Seq<u8>, now: u64) -> Seq<NodeView> {
    if sync_reply_domain(data) matches Ok(Some(_)) {
        match peer_sync::push_value(data) {
            Ok(Some((id, ns))) => if id == 0 {
                table
            } else {
                merged(table, id, ns, now)
            },
            _ => table,
        }
    } else {
        table
    }
}

/// Whether a message brings nodes of a daemon that says who it is.
pub open spec fn brings_nodes(data: Seq<u8>) -> bool {
    &&& (sync_reply_domain(data) matches Ok(Some(_)))
    &&& (peer_sync::push_value(data) matches Ok(Some((id, _))) && id != 0)
}

/// The bytes of the answer to a message, given the table after it.
pub open spec fn sync_answer(
    data: Seq<u8>,
    domain: Option<u32>,
    table: Seq<NodeView>,
    alive: Seq<bool>,
) -> Seq<u8> {
    match domain {
        Some(d) => peer_sync::response_bytes(d, reported_nodes(table, d, alive)),
        None => if data.len() == 0 {
            Seq::empty()
        } else {
            seq![peer_sync::MSG_PONG]
        },
    }
}

/// Every slot that a merge leaves active and of this host was so before.
pub proof fn lemma_merge_keeps_local(
    table: Seq<NodeView>,
    origin: u64,
    ns: Seq<NodeInfoView>,
    now: u64,
    i: int,
)
    requires
        discovery_shm::table_shaped(table),
        origin != 0,
        0 <= i < table.len(),
    ensures
        merged(table, origin, ns, now).len() == table.len(),
        merged(table, origin, ns, now)[i].daemon_origin == 0 && merged(table, origin, ns, now)[i].state
            == SlotState::Active.spec_value() ==> {
            &&& merged(table, origin, ns, now)[i].pub_count == table[i].pub_count
            &&& merged(table, origin, ns, now)[i].sub_count == table[i].sub_count
            &&& merged(table, origin, ns, now)[i].pid == table[i].pid
            &&& merged(table, origin, ns, now)[i].domain_id == table[i].domain_id
            &&& table[i].daemon_origin == 0
            &&& table[i].state == SlotState::Active.spec_value()
        },
{
    let ids = node_ids(ns);
    let s = swept(table, origin, ids);
    lemma_without_nodes_fields(s, swept_ids(table, origin, ids), true, i);
    lemma_with_nodes_local(
        cleared_for(table, origin, ns),
        ns,
        origin,
        now,
        ns.len() as int,
        i,
    );
}

/// Dropping matches keeps the number of slots.
pub proof fn lemma_without_nodes_len(table: Seq<NodeView>, ids: Seq<u64>, clip: bool)
    ensures
        match_list::without_nodes(table, ids, clip).len() == table.len(),
    decreases ids.len(),
{
    if ids.len() > 0 {
        lemma_without_nodes_len(table, ids.drop_last(), clip);
    }
}

/// Dropping matches keeps everything else of a slot.
pub proof fn lemma_without_nodes_fields(table: Seq<NodeView>, ids: Seq<u64>, clip: bool, i: int)
    requires
        0 <= i < table.len(),
    ensures
        match_list::without_nodes(table, ids, clip).len() == table.len(),
        ({
            let e = match_list::without_nodes(table, ids, clip)[i];
            e == (NodeView {
                remote_matches: e.remote_matches,
                match_count: e.match_count,
                response_gen: e.response_gen,
                ..table[i]
            })
        }),
    decreases ids.len(),
{
    if ids.len() > 0 {
        lemma_without_nodes_fields(table, ids.drop_last(), clip, i);
    }
}

proof fn lemma_with_nodes_local(
    table: Seq<NodeView>,
    ns: Seq<NodeInfoView>,
    origin: u64,
    now: u64,
    count: int,
    i: int,
)
    requires
        origin != 0,
        0 <= i < table.len(),
    ensures
        ({
            let t = with_nodes(table, ns, origin, now, count).0;
            &&& t.len() == table.len()
            &&& t[i].daemon_origin == 0 ==> t[i] == (NodeView {
                remote_matches: t[i].remote_matches,
                match_count: t[i].match_count,
                response_gen: t[i].response_gen,
                ..table[i]
            })
        }),
    decreases count,
{
    if count > 0 {
        lemma_with_nodes_local(table, ns, origin, now, count - 1, i);
        let prev = with_nodes(table, ns, origin, now, count - 1).0;
        discovery_shm::lemma_slot_of_node(prev, ns[count - 1].node_id);
        discovery_shm::lemma_first_in_state(prev, SlotState::Empty.spec_value());
    }
}

/// Answers a message from another daemon: a request has the nodes that it brings
/// merged and is answered with the nodes of its domain, a heartbeat with a heartbeat,
/// and nothing with nothing.
///
/// `process_alive` says of each slot whether its process was found alive.
pub fn handle_sync_payload(
    shm: &mut ShmDiscovery,
    data: &[u8],
    process_alive: &[bool],
    now_secs: u64,
) -> (r: Result<Vec<u8>, String>)
    requires
        old(shm).wf(),
        process_alive@.len() == old(shm).node_table@.len(),
        linking::table_counts_fit(old(shm).table()),
    ensures
        final(shm).wf(),
        final(shm).table() == table_after_sync(old(shm).table(), data@, now_secs),
        final(shm).header == (ShmHeader {
            generation: if brings_nodes(data@) {
                match_list::next_generation(old(shm).header.generation)
            } else {
                old(shm).header.generation
            },
            ..old(shm).header
        }),
        match r {
            Ok(answer) => sync_reply_domain(data@) is Ok && answer@ == sync_answer(
                data@,
                sync_reply_domain(data@)->Ok_0,
                final(shm).table(),
                process_alive@,
            ),
            Err(e) => sync_reply_domain(data@) == Err::<Option<u32>, Seq<char>>(e@),
        },
{
    if data.len() == 0 {
        let none: Vec<u8> = Vec::new();
        proof {
            assert(none@ =~= Seq::empty());
        }
        return Ok(none);
    }
    if data[0] == MSG_PING {
        return Ok(encode_pong());
    }
    if data[0] != MSG_SYNC_REQUEST {
        return Err("unsupported daemon sync message".to_owned());
    }
    let domain_id: u32 = match decode_sync_request(data) {
        Ok(d) => d,
        Err(e) => {
            return Err(e.to_owned());
        },
    };
    let ghost before = shm.table();
    match decode_sync_request_push(data) {
        Ok(Some((daemon_id, nodes))) => {
            merge_remote_nodes(shm, daemon_id, &nodes, now_secs);
            proof {
                let ns = peer_sync::nodes_view(nodes@);
                assert forall|i: int|
                    0 <= i < shm.table().len() && reports(
                        #[trigger] shm.table()[i],
                        domain_id,
                        process_alive@[i],
                    ) implies shm.table()[i].counts_fit() by {
                    if daemon_id != 0 {
                        lemma_merge_keeps_local(before, daemon_id, ns, now_secs, i);
                    }
                    assert(before[i].counts_fit());
                }
                if daemon_id != 0 && before.len() > 0 {
                    lemma_merge_keeps_local(before, daemon_id, ns, now_secs, 0);
                }
            }
        },
        Ok(None) => {
            proof {
                assert forall|i: int|
                    0 <= i < shm.table().len() && reports(
                        #[trigger] shm.table()[i],
                        domain_id,
                        process_alive@[i],
                    ) implies shm.table()[i].counts_fit() by {}
            }
        },
        Err(e) => {
            return Err(e.to_owned());
        },
    }
    assert(shm.node_table@.len() == process_alive@.len());
    let nodes = collect_domain_nodes(shm, domain_id, process_alive);
    Ok(encode_sync_response(domain_id, &nodes))
}

/// After a merge, every node that the table has from the daemon is one that the
/// daemon reported.
pub proof fn law_merge_drops_unreported(
    table: Seq<NodeView>,
    origin: u64,
    ns: Seq<NodeInfoView>,
    now: u64,
    i: int,
)
    requires
        origin != 0,
        0 <= i < table.len(),
    ensures
        ({
            let e = merged(table, origin, ns, now)[i];
            e.state != SlotState::Empty.spec_value() && e.daemon_origin == origin ==> node_ids(
                ns,
            ).contains(e.node_id)
        }),
{
    let ids = node_ids(ns);
    lemma_without_nodes_fields(
        swept(table, origin, ids),
        swept_ids(table, origin, ids),
        true,
        i,
    );
    lemma_with_nodes_reported(cleared_for(table, origin, ns), ns, origin, now, ns.len() as int, i);
}

proof fn lemma_with_nodes_reported(
    table: Seq<NodeView>,
    ns: Seq<NodeInfoView>,
    origin: u64,
    now: u64,
    count: int,
    i: int,
)
    requires
        0 <= i < table.len(),
        count <= ns.len(),
        table[i].state != SlotState::Empty.spec_value() && table[i].daemon_origin == origin
            ==> node_ids(ns).contains(table[i].node_id),
    ensures
        ({
            let t = with_nodes(table, ns, origin, now, count).0;
            &&& t.len() == table.len()
            &&& t[i].state != SlotState::Empty.spec_value() && t[i].daemon_origin == origin
                ==> node_ids(ns).contains(t[i].node_id)
        }),
    decreases count,
{
    if count > 0 {
        lemma_with_nodes_reported(table, ns, origin, now, count - 1, i);
        let prev = with_nodes(table, ns, origin, now, count - 1).0;
        discovery_shm::lemma_slot_of_node(prev, ns[count - 1].node_id);
        discovery_shm::lemma_first_in_state(prev, SlotState::Empty.spec_value());
        assert(node_ids(ns)[count - 1] == ns[count - 1].node_id);
    }
}

/// Whether a slot counts a match of the node.
pub open spec fn counts_match_of(e: NodeView, node_id: u64) -> bool {
    exists|k: int|
        0 <= k < e.match_count && (#[trigger] e.remote_matches[k]).node_id == node_id
}

/// Dropping matches never brings one back.
proof fn lemma_drop_brings_none(e: NodeView, ids: Seq<u64>, node_id: u64)
    requires
        e.shaped(),
        e.match_count <= MAX_MATCHES,
    ensures
        ({
            let d = match_list::drop_matches(e, ids, false, true);
            &&& d.shaped()
            &&& d.match_count <= MAX_MATCHES
            &&& counts_match_of(d, node_id) ==> counts_match_of(e, node_id)
            &&& e.state == SlotState::Active.spec_value() && ids.contains(node_id)
                ==> !counts_match_of(d, node_id)
        }),
{
    let limit = match_list::match_limit(e);
    let head = e.remote_matches.subrange(0, limit);
    let d = match_list::drop_matches(e, ids, false, true);
    match_list::lemma_compacted_full(e.remote_matches, limit, ids, false);
    match_list::lemma_kept_len(head, ids, false);
    if e.state == SlotState::Active.spec_value() {
        match_list::law_dropped_matches_are_gone(e, ids, false, true);
        if counts_match_of(d, node_id) {
            let k = choose|k: int|
                0 <= k < d.match_count && (#[trigger] d.remote_matches[k]).node_id == node_id;
            let m = d.remote_matches[k];
            if d != e {
                assert(match_list::kept(head, ids, false)[k] == m);
                match_list::law_kept_exactly(head, ids, false, m);
                let j = choose|j: int| 0 <= j < head.len() && head[j] == m;
                assert(e.remote_matches[j].node_id == node_id);
            }
            assert(match_list::stays(m, ids, false));
        }
    }
}

proof fn lemma_without_nodes_gone(table: Seq<NodeView>, ids: Seq<u64>, i: int, node_id: u64)
    requires
        0 <= i < table.len(),
        table[i].shaped(),
        table[i].match_count <= MAX_MATCHES,
        table[i].state == SlotState::Active.spec_value(),
    ensures
        ({
            let e = match_list::without_nodes(table, ids, true)[i];
            &&& e.shaped()
            &&& e.match_count <= MAX_MATCHES
            &&& e.state == SlotState::Active.spec_value()
            &&& ids.contains(node_id) ==> !counts_match_of(e, node_id)
        }),
    decreases ids.len(),
{
    lemma_without_nodes_fields(table, ids, true, i);
    if ids.len() > 0 {
        let init = ids.drop_last();
        lemma_without_nodes_gone(table, init, i, node_id);
        lemma_without_nodes_fields(table, init, true, i);
        let prev = match_list::without_nodes(table, init, true)[i];
        lemma_drop_brings_none(prev, seq![ids.last()], node_id);
        if ids.contains(node_id) {
            let j = choose|j: int| 0 <= j < ids.len() && ids[j] == node_id;
            if j < init.len() {
                assert(init[j] == node_id);
            } else {
                assert(seq![ids.last()][0] == node_id);
            }
        }
    }
}

proof fn lemma_with_nodes_gone(
    table: Seq<NodeView>,
    ns: Seq<NodeInfoView>,
    origin: u64,
    now: u64,
    count: int,
    i: int,
    node_id: u64,
)
    requires
        0 <= i < table.len(),
        table[i].shaped(),
        table[i].match_count <= MAX_MATCHES,
        table[i].state == SlotState::Active.spec_value(),
        !counts_match_of(table[i], node_id),
    ensures
        ({
            let t = with_nodes(table, ns, origin, now, count).0;
            &&& t.len() == table.len()
            &&& t[i].shaped()
            &&& t[i].match_count <= MAX_MATCHES
            &&& t[i].state == SlotState::Active.spec_value()
            &&& !counts_match_of(t[i], node_id)
        }),
    decreases count,
{
    if count > 0 {
        lemma_with_nodes_gone(table, ns, origin, now, count - 1, i, node_id);
        let prev = with_nodes(table, ns, origin, now, count - 1).0;
        let n = ns[count - 1];
        discovery_shm::lemma_slot_of_node(prev, n.node_id);
        discovery_shm::lemma_first_in_state(prev, SlotState::Empty.spec_value());
        lemma_drop_brings_none(prev[i], seq![n.node_id], node_id);
        let dropped = without_node(prev, n.node_id)[i];
        let a = installed(prev[i], n, origin, now);
        let b = installed(dropped, n, origin, now);
        assert(counts_match_of(a, node_id) == counts_match_of(prev[i], node_id));
        assert(counts_match_of(b, node_id) == counts_match_of(dropped, node_id));
    }
}

/// A node that a merge sweeps away leaves no match behind in a slot that was active
/// and stays.
pub proof fn law_swept_nodes_leave_no_match(
    table: Seq<NodeView>,
    origin: u64,
    ns: Seq<NodeInfoView>,
    now: u64,
    i: int,
    node_id: u64,
)
    requires
        0 <= i < table.len(),
        table[i].shaped(),
        table[i].match_count <= MAX_MATCHES,
        table[i].state == SlotState::Active.spec_value(),
        !superseded(table[i], origin, node_ids(ns)),
        swept_ids(table, origin, node_ids(ns)).contains(node_id),
    ensures
        !counts_match_of(merged(table, origin, ns, now)[i], node_id),
{
    let ids = node_ids(ns);
    let s = swept(table, origin, ids);
    assert(s[i] == table[i]);
    lemma_without_nodes_gone(s, swept_ids(table, origin, ids), i, node_id);
    lemma_without_nodes_fields(s, swept_ids(table, origin, ids), true, i);
    lemma_with_nodes_gone(
        cleared_for(table, origin, ns),
        ns,
        origin,
        now,
        ns.len() as int,
        i,
        node_id,
    );
}

/// Whether two slots hold the same node with the same endpoint, topics and matches.
pub open spec fn same_node(a: NodeView, b: NodeView) -> bool {
    &&& a.shaped()
    &&& b.shaped()
    &&& (a.state != SlotState::Empty.spec_value()) == (b.state != SlotState::Empty.spec_value())
    &&& a.node_id == b.node_id
    &&& a.daemon_origin == b.daemon_origin
    &&& a.remote_matches == b.remote_matches
    &&& a.match_count == b.match_count
    &&& a.response_gen == b.response_gen
    &&& a.domain_id == b.domain_id
    &&& a.quic_port == b.quic_port
    &&& a.quic_addr_count == b.quic_addr_count
    &&& linking::reach(a) == linking::reach(b)
    &&& a.pub_count == b.pub_count
    &&& a.sub_count == b.sub_count
    &&& forall|k: int|
        0 <= k < a.pub_count && k < MAX_TOPICS_PER_NODE ==> (#[trigger] a.published_topics[k])
            == b.published_topics[k]
    &&& forall|k: int|
        0 <= k < a.sub_count && k < MAX_TOPICS_PER_NODE ==> (#[trigger] a.subscribed_topics[k])
            == b.subscribed_topics[k]
}

proof fn lemma_same_node_endpoints(a: NodeView, b: NodeView, n: NodeInfoView)
    requires
        same_node(a, b),
        same_endpoints(b, n),
    ensures
        same_endpoints(a, n),
{
    assert forall|k: int|
        0 <= k < clipped(n.published_topics.len(), a.published_topics.len()) implies (
    #[trigger] a.published_topics[k]) == entry_of_topic(n.published_topics[k]) by {
        assert(b.published_topics[k] == entry_of_topic(n.published_topics[k]));
    }
    assert forall|k: int|
        0 <= k < clipped(n.subscribed_topics.len(), a.subscribed_topics.len()) implies (
    #[trigger] a.subscribed_topics[k]) == entry_of_topic(n.subscribed_topics[k]) by {
        assert(b.subscribed_topics[k] == entry_of_topic(n.subscribed_topics[k]));
    }
}

proof fn lemma_reinstall(e: NodeView, n: NodeInfoView, origin: u64, now: u64)
    requires
        e.shaped(),
        e.state != SlotState::Empty.spec_value(),
        e.node_id == n.node_id,
        e.daemon_origin == origin,
        same_endpoints(e, n),
    ensures
        same_node(installed(e, n, origin, now), e),
{
    let x = installed(e, n, origin, now);
    assert(linking::reach(x) =~= linking::reach(e)) by {
        assert(linking::reach(x) =~= linking::first_addrs(
            n.quic_addrs,
            MAX_QUIC_ADDRS as int,
        ));
    }
    assert forall|k: int| 0 <= k < x.pub_count && k < MAX_TOPICS_PER_NODE implies (
    #[trigger] x.published_topics[k]) == e.published_topics[k] by {
        assert(e.published_topics[k] == entry_of_topic(n.published_topics[k]));
    }
    assert forall|k: int| 0 <= k < x.sub_count && k < MAX_TOPICS_PER_NODE implies (
    #[trigger] x.subscribed_topics[k]) == e.subscribed_topics[k] by {
        assert(e.subscribed_topics[k] == entry_of_topic(n.subscribed_topics[k]));
    }
}

proof fn lemma_slot_of_same_nodes(a: Seq<NodeView>, b: Seq<NodeView>, node_id: u64)
    requires
        a.len() == b.len(),
        forall|i: int| 0 <= i < a.len() ==> same_node(#[trigger] a[i], b[i]),
    ensures
        discovery_shm::slot_of_node(a, node_id) == discovery_shm::slot_of_node(b, node_id),
    decreases a.len(),
{
    if a.len() > 0 {
        let a1 = a.drop_last();
        let b1 = b.drop_last();
        assert forall|i: int| 0 <= i < a1.len() implies same_node(#[trigger] a1[i], b1[i]) by {
            assert(same_node(a[i], b[i]));
        }
        lemma_slot_of_same_nodes(a1, b1, node_id);
        assert(same_node(a[a.len() - 1], b[b.len() - 1]));
    }
}

/// Whether the table already holds every reported node, as reported and from that
/// daemon, and nothing in it is superseded.
pub open spec fn settled(table: Seq<NodeView>, origin: u64, ns: Seq<NodeInfoView>) -> bool {
    &&& forall|i: int|
        0 <= i < table.len() ==> !superseded(#[trigger] table[i], origin, node_ids(ns))
    &&& forall|j: int|
        #![trigger ns[j]]
        0 <= j < ns.len() ==> match discovery_shm::slot_of_node(table, ns[j].node_id) {
            Some(k) => same_endpoints(table[k], ns[j]) && table[k].daemon_origin == origin,
            None => false,
        }
}

proof fn lemma_resettle(
    table: Seq<NodeView>,
    origin: u64,
    ns: Seq<NodeInfoView>,
    now: u64,
    count: int,
)
    requires
        discovery_shm::table_shaped(table),
        settled(table, origin, ns),
        count <= ns.len(),
    ensures
        ({
            let (t, full) = with_nodes(table, ns, origin, now, count);
            &&& !full
            &&& t.len() == table.len()
            &&& forall|i: int| 0 <= i < t.len() ==> same_node(#[trigger] t[i], table[i])
        }),
    decreases count,
{
    if count <= 0 {
        assert forall|i: int| 0 <= i < table.len() implies same_node(
            #[trigger] table[i],
            table[i],
        ) by {
            assert(table[i].shaped());
        }
    } else {
        lemma_resettle(table, origin, ns, now, count - 1);
        let t = with_nodes(table, ns, origin, now, count - 1).0;
        let n = ns[count - 1];
        lemma_slot_of_same_nodes(t, table, n.node_id);
        discovery_shm::lemma_slot_of_node(table, n.node_id);
        let k = discovery_shm::slot_of_node(table, n.node_id)->0;
        assert(same_node(t[k], table[k]));
        lemma_same_node_endpoints(t[k], table[k], n);
        lemma_reinstall(t[k], n, origin, now);
        let next = with_nodes(table, ns, origin, now, count).0;
        assert(next == t.update(k, installed(t[k], n, origin, now)));
        assert forall|i: int| 0 <= i < next.len() implies same_node(
            #[trigger] next[i],
            table[i],
        ) by {
            assert(same_node(t[i], table[i]));
            if i == k {
                lemma_same_node_trans(next[k], t[k], table[k]);
            }
        }
    }
}

proof fn lemma_same_node_trans(a: NodeView, b: NodeView, c: NodeView)
    requires
        same_node(a, b),
        same_node(b, c),
    ensures
        same_node(a, c),
{
    assert forall|k: int| 0 <= k < a.pub_count && k < MAX_TOPICS_PER_NODE implies (
    #[trigger] a.published_topics[k]) == c.published_topics[k] by {
        assert(b.published_topics[k] == c.published_topics[k]);
    }
    assert forall|k: int| 0 <= k < a.sub_count && k < MAX_TOPICS_PER_NODE implies (
    #[trigger] a.subscribed_topics[k]) == c.subscribed_topics[k] by {
        assert(b.subscribed_topics[k] == c.subscribed_topics[k]);
    }
}

/// Merging a report that the table already holds leaves every node in its slot, with
/// its endpoint, its topics, its matches and its generation.
pub proof fn law_repeated_merge_keeps_matches(
    table: Seq<NodeView>,
    origin: u64,
    ns: Seq<NodeInfoView>,
    now: u64,
)
    requires
        discovery_shm::table_shaped(table),
        settled(table, origin, ns),
    ensures
        merged(table, origin, ns, now).len() == table.len(),
        forall|i: int|
            0 <= i < table.len() ==> same_node(
                #[trigger] merged(table, origin, ns, now)[i],
                table[i],
            ),
        forall|id: u64| #[trigger]
            discovery_shm::slot_of_node(merged(table, origin, ns, now), id)
                == discovery_shm::slot_of_node(table, id),
{
    let ids = node_ids(ns);
    assert(swept(table, origin, ids) =~= table);
    lemma_nothing_swept(table, origin, ids);
    assert(cleared_for(table, origin, ns) == table);
    lemma_resettle(table, origin, ns, now, ns.len() as int);
    assert forall|id: u64| #[trigger]
        discovery_shm::slot_of_node(merged(table, origin, ns, now), id)
            == discovery_shm::slot_of_node(table, id) by {
        lemma_slot_of_same_nodes(merged(table, origin, ns, now), table, id);
    }
}

proof fn lemma_nothing_swept(table: Seq<NodeView>, origin: u64, ids: Seq<u64>)
    requires
        forall|i: int| 0 <= i < table.len() ==> !superseded(#[trigger] table[i], origin, ids),
    ensures
        swept_ids(table, origin, ids) == Seq::<u64>::empty(),
    decreases table.len(),
{
    if table.len() > 0 {
        let init = table.drop_last();
        assert forall|i: int| 0 <= i < init.len() implies !superseded(
            #[trigger] init[i],
            origin,
            ids,
        ) by {
            assert(!superseded(table[i], origin, ids));
        }
        lemma_nothing_swept(init, origin, ids);
        assert(!superseded(table[table.len() - 1], origin, ids));
    }
}

/// Whether the table holds a reported node, with everything that was reported of it,
/// as of a time.
pub open spec fn placed(table: Seq<NodeView>, n: NodeInfoView, origin: u64, now: u64) -> bool {
    match discovery_shm::slot_of_node(table, n.node_id) {
        Some(k) => table[k] == installed(table[k], n, origin, now),
        None => false,
    }
}

/// Whether no node is reported twice.
pub open spec fn reported_once(ns: Seq<NodeInfoView>) -> bool {
    forall|i: int, j: int|
        0 <= i < j < ns.len() ==> (#[trigger] ns[i]).node_id != (#[trigger] ns[j]).node_id
}

/// Whether a slot holds one of the first `count` reported nodes.
pub open spec fn holds_reported(
    table: Seq<NodeView>,
    ns: Seq<NodeInfoView>,
    count: int,
    i: int,
) -> bool {
    exists|j: int|
        0 <= j < count && discovery_shm::slot_of_node(table, (#[trigger] ns[j]).node_id) == Some(i)
}

/// The table, with the first `count` reported nodes seen at a time.
pub open spec fn seen(table: Seq<NodeView>, ns: Seq<NodeInfoView>, now: u64, count: int) -> Seq<
    NodeView,
> {
    Seq::new(
        table.len(),
        |i: int|
            if holds_reported(table, ns, count, i) {
                NodeView { last_seen_secs: now, ..table[i] }
            } else {
                table[i]
            },
    )
}

/// Which slot holds a node rests only on which slots are used, and by which nodes.
proof fn lemma_slot_of_alike(a: Seq<NodeView>, b: Seq<NodeView>, node_id: u64)
    requires
        a.len() == b.len(),
        forall|i: int|
            0 <= i < a.len() ==> ((#[trigger] b[i]).state != 0) == (a[i].state != 0) && b[i].node_id
                == a[i].node_id,
    ensures
        discovery_shm::slot_of_node(b, node_id) == discovery_shm::slot_of_node(a, node_id),
    decreases a.len(),
{
    if a.len() > 0 {
        let a1 = a.drop_last();
        let b1 = b.drop_last();
        assert forall|i: int| 0 <= i < a1.len() implies ((#[trigger] b1[i]).state != 0) == (
        a1[i].state != 0) && b1[i].node_id == a1[i].node_id by {
            assert(b1[i] == b[i]);
        }
        lemma_slot_of_alike(a1, b1, node_id);
        assert(b[b.len() - 1].node_id == a[a.len() - 1].node_id);
    }
}

proof fn lemma_installed_endpoints(e: NodeView, n: NodeInfoView, origin: u64, now: u64)
    ensures
        same_endpoints(installed(e, n, origin, now), n),
{
    let x = installed(e, n, origin, now);
    assert(linking::reach(x) =~= linking::first_addrs(n.quic_addrs, MAX_QUIC_ADDRS as int));
}

/// To merge one more node leaves those that are there where they are.
proof fn lemma_with_node_places(
    table: Seq<NodeView>,
    n: NodeInfoView,
    origin: u64,
    now: u64,
    ids: Seq<u64>,
)
    requires
        ids.contains(n.node_id),
        with_node(table, n, origin, now) is Some,
        forall|i: int| 0 <= i < table.len() ==> !superseded(#[trigger] table[i], origin, ids),
    ensures
        ({
            let next = with_node(table, n, origin, now)->0;
            &&& next.len() == table.len()
            &&& placed(next, n, origin, now)
            &&& forall|i: int| 0 <= i < next.len() ==> !superseded(#[trigger] next[i], origin, ids)
            &&& forall|m: NodeInfoView|
                m.node_id != n.node_id && #[trigger] placed(table, m, origin, now) ==> placed(
                    next,
                    m,
                    origin,
                    now,
                )
        }),
{
    let next = with_node(table, n, origin, now)->0;
    discovery_shm::lemma_slot_of_node(table, n.node_id);
    discovery_shm::lemma_slot_of_node(next, n.node_id);
    discovery_shm::lemma_first_in_state(table, SlotState::Empty.spec_value());
    let k = match discovery_shm::slot_of_node(table, n.node_id) {
        Some(k) => k,
        None => discovery_shm::first_in_state(table, SlotState::Empty.spec_value())->0,
    };
    assert(next.len() == table.len());
    assert forall|i: int| 0 <= i < next.len() && i != k implies #[trigger] next[i] == (NodeView {
        remote_matches: next[i].remote_matches,
        match_count: next[i].match_count,
        response_gen: next[i].response_gen,
        ..table[i]
    }) by {}
    assert(next[k].node_id == n.node_id && next[k].state != 0);
    let found = discovery_shm::slot_of_node(next, n.node_id);
    assert(found is Some);
    if found->0 < k {
        assert(table[found->0].node_id == n.node_id);
        assert(false);
    }
    assert(found == Some(k));
    assert forall|i: int| 0 <= i < next.len() implies !superseded(
        #[trigger] next[i],
        origin,
        ids,
    ) by {
        assert(!superseded(table[i], origin, ids));
    }
    assert forall|m: NodeInfoView|
        m.node_id != n.node_id && #[trigger] placed(table, m, origin, now) implies placed(
        next,
        m,
        origin,
        now,
    ) by {
        discovery_shm::lemma_slot_of_node(table, m.node_id);
        discovery_shm::lemma_slot_of_node(next, m.node_id);
        let p = discovery_shm::slot_of_node(table, m.node_id)->0;
        assert(p != k);
        assert(next[p].node_id == m.node_id && next[p].state != 0);
        let q = discovery_shm::slot_of_node(next, m.node_id);
        assert(q is Some);
        if q->0 < p {
            assert(q->0 != k);
            assert(table[q->0].node_id == m.node_id);
            assert(false);
        }
        assert(q == Some(p));
    }
}

/// What a merge that found a slot for every node leaves.
proof fn lemma_with_nodes_place(
    table: Seq<NodeView>,
    ns: Seq<NodeInfoView>,
    origin: u64,
    now: u64,
    count: int,
)
    requires
        0 <= count <= ns.len(),
        reported_once(ns),
        !with_nodes(table, ns, origin, now, count).1,
        forall|i: int|
            0 <= i < table.len() ==> !superseded(#[trigger] table[i], origin, node_ids(ns)),
    ensures
        ({
            let t = with_nodes(table, ns, origin, now, count).0;
            &&& t.len() == table.len()
            &&& forall|i: int|
                0 <= i < t.len() ==> !superseded(#[trigger] t[i], origin, node_ids(ns))
            &&& forall|j: int| 0 <= j < count ==> placed(t, #[trigger] ns[j], origin, now)
        }),
    decreases count,
{
    if count > 0 {
        lemma_with_nodes_place(table, ns, origin, now, count - 1);
        let prev = with_nodes(table, ns, origin, now, count - 1).0;
        let n = ns[count - 1];
        assert(node_ids(ns)[count - 1] == n.node_id);
        lemma_with_node_places(prev, n, origin, now, node_ids(ns));
        let t = with_nodes(table, ns, origin, now, count).0;
        assert forall|j: int| 0 <= j < count implies placed(t, #[trigger] ns[j], origin, now) by {
            if j < count - 1 {
                assert(ns[j].node_id != n.node_id);
                assert(placed(prev, ns[j], origin, now));
            }
        }
    }
}

/// To merge nodes that are all in place changes only when they were seen.
proof fn lemma_see_placed(
    table: Seq<NodeView>,
    ns: Seq<NodeInfoView>,
    origin: u64,
    now: u64,
    later: u64,
    count: int,
)
    requires
        0 <= count <= ns.len(),
        reported_once(ns),
        forall|j: int| 0 <= j < ns.len() ==> placed(table, #[trigger] ns[j], origin, now),
    ensures
        with_nodes(table, ns, origin, later, count) == (seen(table, ns, later, count), false),
    decreases count,
{
    if count == 0 {
        assert(seen(table, ns, later, 0) =~= table);
    } else {
        lemma_see_placed(table, ns, origin, now, later, count - 1);
        let prev = seen(table, ns, later, count - 1);
        let n = ns[count - 1];
        assert(placed(table, n, origin, now));
        discovery_shm::lemma_slot_of_node(table, n.node_id);
        let k = discovery_shm::slot_of_node(table, n.node_id)->0;
        lemma_slot_of_alike(table, prev, n.node_id);
        if holds_reported(table, ns, count - 1, k) {
            let j = choose|j: int|
                0 <= j < count - 1 && discovery_shm::slot_of_node(table, (#[trigger] ns[j]).node_id)
                    == Some(k);
            discovery_shm::lemma_slot_of_node(table, ns[j].node_id);
            assert(ns[j].node_id == n.node_id);
            assert(false);
        }
        assert(prev[k] == table[k]);
        lemma_installed_endpoints(table[k], n, origin, now);
        assert(same_endpoints(prev[k], n));
        let next = prev.update(k, installed(prev[k], n, origin, later));
        assert(next[k] == (NodeView { last_seen_secs: later, ..table[k] }));
        assert forall|i: int| 0 <= i < table.len() implies #[trigger] next[i] == seen(
            table,
            ns,
            later,
            count,
        )[i] by {
            if i == k {
                assert(discovery_shm::slot_of_node(table, ns[count - 1].node_id) == Some(i));
                assert(holds_reported(table, ns, count, i));
            } else {
                assert(holds_reported(table, ns, count, i) == holds_reported(
                    table,
                    ns,
                    count - 1,
                    i,
                )) by {
                    if holds_reported(table, ns, count, i) {
                        let j = choose|j: int|
                            0 <= j < count && discovery_shm::slot_of_node(
                                table,
                                (#[trigger] ns[j]).node_id,
                            ) == Some(i);
                        assert(j < count - 1);
                    }
                }
            }
        }
        assert(next =~= seen(table, ns, later, count));
    }
}

/// After a merge that found a slot for every node, none of them reported twice, every
/// node is in its slot with all that was reported of it, and nothing is superseded.
pub proof fn law_merge_places_all(
    table: Seq<NodeView>,
    origin: u64,
    ns: Seq<NodeInfoView>,
    now: u64,
)
    requires
        origin != 0,
        reported_once(ns),
        !with_nodes(cleared_for(table, origin, ns), ns, origin, now, ns.len() as int).1,
    ensures
        merged(table, origin, ns, now).len() == table.len(),
        forall|j: int|
            0 <= j < ns.len() ==> placed(
                merged(table, origin, ns, now),
                #[trigger] ns[j],
                origin,
                now,
            ),
        settled(merged(table, origin, ns, now), origin, ns),
{
    let ids = node_ids(ns);
    let base = cleared_for(table, origin, ns);
    let done = merged(table, origin, ns, now);
    lemma_without_nodes_len(swept(table, origin, ids), swept_ids(table, origin, ids), true);
    assert forall|i: int| 0 <= i < base.len() implies !superseded(
        #[trigger] base[i],
        origin,
        ids,
    ) by {
        lemma_without_nodes_fields(
            swept(table, origin, ids),
            swept_ids(table, origin, ids),
            true,
            i,
        );
    }
    lemma_with_nodes_place(base, ns, origin, now, ns.len() as int);
    assert forall|j: int| #![trigger ns[j]] 0 <= j < ns.len() implies match discovery_shm::slot_of_node(
        done,
        ns[j].node_id,
    ) {
        Some(k) => same_endpoints(done[k], ns[j]) && done[k].daemon_origin == origin,
        None => false,
    } by {
        assert(placed(done, ns[j], origin, now));
        let k = discovery_shm::slot_of_node(done, ns[j].node_id)->0;
        lemma_installed_endpoints(done[k], ns[j], origin, now);
    }
}

/// To merge the same report again at once, where the first time a slot was found for
/// every node and none was reported twice, keeps every node in its slot and changes
/// nothing of any slot but when the reported nodes were seen.
pub proof fn law_merging_again_changes_nothing(
    table: Seq<NodeView>,
    origin: u64,
    ns: Seq<NodeInfoView>,
    now: u64,
    later: u64,
)
    requires
        origin != 0,
        reported_once(ns),
        !with_nodes(cleared_for(table, origin, ns), ns, origin, now, ns.len() as int).1,
    ensures
        ({
            let done = merged(table, origin, ns, now);
            &&& merged(done, origin, ns, later) == seen(done, ns, later, ns.len() as int)
            &&& forall|id: u64| #[trigger]
                discovery_shm::slot_of_node(merged(done, origin, ns, later), id)
                    == discovery_shm::slot_of_node(done, id)
        }),
{
    let ids = node_ids(ns);
    let done = merged(table, origin, ns, now);
    law_merge_places_all(table, origin, ns, now);
    assert(swept(done, origin, ids) =~= done);
    lemma_nothing_swept(done, origin, ids);
    assert(cleared_for(done, origin, ns) == done);
    lemma_see_placed(done, ns, origin, now, later, ns.len() as int);
    assert forall|id: u64| #[trigger]
        discovery_shm::slot_of_node(merged(done, origin, ns, later), id)
            == discovery_shm::slot_of_node(done, id) by {
        lemma_slot_of_alike(done, merged(done, origin, ns, later), id);
    }
}

/// A stored topic keeps its identity and its quality of service: every field of the
/// entry is the field of that name that was reported, and the name fields begin with
/// the reported names.
pub proof fn law_stored_topic_keeps_its_fields(t: TopicInfoView)
    ensures
        entry_of_topic(t).hash == t.hash,
        entry_of_topic(t).type_hash == t.type_hash,
        entry_of_topic(t).qos_reliability == t.qos_reliability,
        entry_of_topic(t).qos_durability == t.qos_durability,
        entry_of_topic(t).qos_history_kind == t.qos_history_kind,
        entry_of_topic(t).qos_history_depth == t.qos_history_depth,
        entry_of_topic(t).qos_deadline_sec == t.qos_deadline_sec,
        entry_of_topic(t).qos_deadline_nsec == t.qos_deadline_nsec,
        entry_of_topic(t).qos_lifespan_sec == t.qos_lifespan_sec,
        entry_of_topic(t).qos_lifespan_nsec == t.qos_lifespan_nsec,
        entry_of_topic(t).qos_liveliness == t.qos_liveliness,
        entry_of_topic(t).qos_liveliness_lease_sec == t.qos_liveliness_lease_sec,
        entry_of_topic(t).qos_liveliness_lease_nsec == t.qos_liveliness_lease_nsec,
        entry_of_topic(t).topic_name.len() == 128,
        entry_of_topic(t).topic_type.len() == 128,
        entry_of_topic(t).node_name.len() == 128,
        entry_of_topic(t).node_namespace.len() == 128,
        forall|i: int|
            0 <= i < 127 && i < encode_utf8(t.name).len() ==> #[trigger] entry_of_topic(
                t,
            ).topic_name[i] == encode_utf8(t.name)[i],
        forall|i: int|
            0 <= i < 127 && i < encode_utf8(t.topic_type).len() ==> #[trigger] entry_of_topic(
                t,
            ).topic_type[i] == encode_utf8(t.topic_type)[i],
        forall|i: int|
            0 <= i < 127 && i < encode_utf8(t.node_name).len() ==> #[trigger] entry_of_topic(
                t,
            ).node_name[i] == encode_utf8(t.node_name)[i],
        forall|i: int|
            0 <= i < 127 && i < encode_utf8(t.node_namespace).len() ==> #[trigger] entry_of_topic(
                t,
            ).node_namespace[i] == encode_utf8(t.node_namespace)[i],
{
}

/// A name field holds as many bytes of its text as fit before the last one, and zeros
/// behind them.
pub proof fn law_name_field_holds_its_text(text: Seq<char>, n: nat, i: int)
    requires
        0 <= i < n,
    ensures
        padded(text, n).len() == n,
        i == n - 1 || i >= encode_utf8(text).len() ==> padded(text, n)[i] == 0,
        i < n - 1 && i < encode_utf8(text).len() ==> padded(text, n)[i] == encode_utf8(text)[i],
{
}

/// What is read of a name field are its bytes up to the first zero, and all of them
/// where there is none.
pub proof fn law_field_ends_at_the_first_zero(b: Seq<u8>)
    ensures
        until_zero(b).len() <= b.len(),
        until_zero(b) == b.subrange(0, until_zero(b).len() as int),
        forall|i: int| 0 <= i < until_zero(b).len() ==> #[trigger] b[i] != 0,
        until_zero(b).len() < b.len() ==> b[until_zero(b).len() as int] == 0,
    decreases b.len(),
{
    if b.len() > 0 && b[0] != 0 {
        let rest = b.subrange(1, b.len() as int);
        law_field_ends_at_the_first_zero(rest);
        let r = until_zero(rest);
        assert(until_zero(b).len() == r.len() + 1);
        assert forall|i: int| 0 <= i < until_zero(b).len() implies #[trigger] b[i] != 0 by {
            if i > 0 {
                assert(rest[i - 1] != 0);
            }
        }
        assert(until_zero(b) =~= b.subrange(0, until_zero(b).len() as int)) by {
            assert forall|i: int| 0 <= i < until_zero(b).len() implies until_zero(b)[i]
                == b.subrange(0, until_zero(b).len() as int)[i] by {
                if i > 0 {
                    assert(r[i - 1] == rest[i - 1]);
                }
            }
        }
        if until_zero(b).len() < b.len() {
            assert(rest[r.len() as int] == b[r.len() as int + 1]);
        }
    } else {
        assert(until_zero(b) =~= b.subrange(0, 0));
    }
}

/// Whether a text can stand whole in a name field: it leaves room for a final zero and
/// holds none itself.
pub open spec fn fits_field(text: Seq<char>) -> bool {
    &&& encode_utf8(text).len() < 128
    &&& forall|i: int| 0 <= i < encode_utf8(text).len() ==> #[trigger] encode_utf8(text)[i] != 0
}

/// A text that fits is read back from its name field, whatever stands for a field
/// without one.
pub proof fn law_name_is_read_back(text: Seq<char>, default: Seq<char>)
    requires
        fits_field(text),
    ensures
        field_text(padded(text, 128), default) == text,
        text.len() > 0 ==> field_text_or(padded(text, 128), default) == text,
        text.len() == 0 ==> field_text_or(padded(text, 128), default) == default,
{
    let b = padded(text, 128);
    let e = encode_utf8(text);
    law_field_ends_at_the_first_zero(b);
    let u = until_zero(b);
    if u.len() < e.len() {
        assert(b[u.len() as int] == e[u.len() as int]);
    }
    if u.len() > e.len() {
        assert(b[e.len() as int] == 0);
    }
    assert(u =~= e);
    encode_utf8_valid_utf8(text);
    encode_utf8_decode_utf8(text);
}

/// Whether the names of a reported topic can stand whole in a topic entry, with a node
/// name and a namespace of its own.
pub open spec fn fits_entry(t: TopicInfoView) -> bool {
    &&& fits_field(t.name)
    &&& fits_field(t.topic_type)
    &&& fits_field(t.node_name)
    &&& fits_field(t.node_namespace)
    &&& t.node_name.len() > 0
    &&& t.node_namespace.len() > 0
}

/// A topic that was stored is reported as it came.
pub proof fn law_stored_topic_is_reported_back(
    t: TopicInfoView,
    node_name: Seq<char>,
    node_namespace: Seq<char>,
)
    requires
        fits_entry(t),
    ensures
        reported_topic(entry_of_topic(t), node_name, node_namespace) == t,
{
    law_name_is_read_back(t.name, Seq::empty());
    law_name_is_read_back(t.topic_type, Seq::empty());
    law_name_is_read_back(t.node_name, node_name);
    law_name_is_read_back(t.node_namespace, node_namespace);
}

/// A reported topic has each policy of its entry under the same name, and takes the
/// node's name and namespace where it has none of its own.
pub proof fn law_reported_topic_keeps_its_fields(
    t: TopicView,
    node_name: Seq<char>,
    node_namespace: Seq<char>,
)
    ensures
        ({
            let r = reported_topic(t, node_name, node_namespace);
            &&& r.hash == t.hash
            &&& r.type_hash == t.type_hash
            &&& r.qos_reliability == t.qos_reliability
            &&& r.qos_durability == t.qos_durability
            &&& r.qos_history_kind == t.qos_history_kind
            &&& r.qos_history_depth == t.qos_history_depth
            &&& r.qos_deadline_sec == t.qos_deadline_sec
            &&& r.qos_deadline_nsec == t.qos_deadline_nsec
            &&& r.qos_lifespan_sec == t.qos_lifespan_sec
            &&& r.qos_lifespan_nsec == t.qos_lifespan_nsec
            &&& r.qos_liveliness == t.qos_liveliness
            &&& r.qos_liveliness_lease_sec == t.qos_liveliness_lease_sec
            &&& r.qos_liveliness_lease_nsec == t.qos_liveliness_lease_nsec
            &&& t.node_name.len() > 0 && t.node_name[0] == 0 ==> r.node_name == node_name
            &&& t.node_namespace.len() > 0 && t.node_namespace[0] == 0 ==> r.node_namespace
                == node_namespace
        }),
{
    if t.node_name.len() > 0 && t.node_name[0] == 0 {
        lemma_empty_field(t.node_name, node_name);
    }
    if t.node_namespace.len() > 0 && t.node_namespace[0] == 0 {
        lemma_empty_field(t.node_namespace, node_namespace);
    }
}

/// A field that starts with a zero holds no text.
proof fn lemma_empty_field(b: Seq<u8>, default: Seq<char>)
    requires
        b.len() > 0,
        b[0] == 0,
    ensures
        field_text_or(b, default) == default,
{
    let none: Seq<char> = Seq::empty();
    encode_utf8_valid_utf8(none);
    encode_utf8_decode_utf8(none);
    assert(encode_utf8(none) =~= Seq::<u8>::empty());
    assert(until_zero(b) =~= Seq::<u8>::empty());
}

/// A node that is written into a slot is there with all that was reported of it, under
/// its own daemon and as of now; the matches that the slot had stay.
pub proof fn law_installed_node_keeps_its_fields(
    e: NodeView,
    n: NodeInfoView,
    origin: u64,
    now: u64,
    k: int,
)
    requires
        n.published_topics.len() <= 256,
        n.subscribed_topics.len() <= 256,
        n.quic_addrs.len() <= 8,
    ensures
        ({
            let s = installed(e, n, origin, now);
            &&& s.state == 2
            &&& s.node_id == n.node_id
            &&& s.domain_id == n.domain_id
            &&& s.pid == 0
            &&& s.proc_starttime == 0
            &&& s.quic_port == n.quic_port
            &&& s.daemon_origin == origin
            &&& s.last_seen_secs == now
            &&& s.pub_count == n.published_topics.len()
            &&& s.sub_count == n.subscribed_topics.len()
            &&& s.quic_addr_count == n.quic_addrs.len()
            &&& s.match_count == e.match_count
            &&& s.remote_matches == e.remote_matches
            &&& s.response_gen == e.response_gen
            &&& 0 <= k < n.quic_addrs.len() ==> s.quic_addrs[k] == n.quic_addrs[k]
            &&& 0 <= k < n.published_topics.len() ==> s.published_topics[k].hash
                == n.published_topics[k].hash && s.published_topics[k].qos_reliability
                == n.published_topics[k].qos_reliability
            &&& 0 <= k < n.subscribed_topics.len() ==> s.subscribed_topics[k].hash
                == n.subscribed_topics[k].hash && s.subscribed_topics[k].qos_reliability
                == n.subscribed_topics[k].qos_reliability
        }),
{
}

/// A node that was written into a slot is reported as it came, where its topics,
/// addresses and names fit.
pub proof fn law_installed_node_is_reported_back(
    e: NodeView,
    n: NodeInfoView,
    origin: u64,
    now: u64,
)
    requires
        n.published_topics.len() <= 256,
        n.subscribed_topics.len() <= 256,
        n.quic_addrs.len() <= 8,
        fits_field(n.node_name),
        fits_field(n.node_namespace),
        forall|k: int|
            0 <= k < n.published_topics.len() ==> fits_entry(#[trigger] n.published_topics[k]),
        forall|k: int|
            0 <= k < n.subscribed_topics.len() ==> fits_entry(#[trigger] n.subscribed_topics[k]),
    ensures
        ({
            let s = installed(e, n, origin, now);
            reported_node(
                s,
                field_text(s.node_name, Seq::empty()),
                field_text(s.node_namespace, "/"@),
            ) == n
        }),
{
    let s = installed(e, n, origin, now);
    law_name_is_read_back(n.node_name, Seq::empty());
    law_name_is_read_back(n.node_namespace, "/"@);
    let r = reported_node(s, n.node_name, n.node_namespace);
    assert forall|k: int| 0 <= k < n.published_topics.len() implies r.published_topics[k]
        == n.published_topics[k] by {
        assert(s.pubs()[k] == entry_of_topic(n.published_topics[k]));
        law_stored_topic_is_reported_back(n.published_topics[k], n.node_name, n.node_namespace);
    }
    assert forall|k: int| 0 <= k < n.subscribed_topics.len() implies r.subscribed_topics[k]
        == n.subscribed_topics[k] by {
        assert(s.subs()[k] == entry_of_topic(n.subscribed_topics[k]));
        law_stored_topic_is_reported_back(n.subscribed_topics[k], n.node_name, n.node_namespace);
    }
    assert(r.published_topics =~= n.published_topics);
    assert(r.subscribed_topics =~= n.subscribed_topics);
    assert(r.quic_addrs =~= n.quic_addrs);
}

/// A daemon reports the active nodes of its own host in the domain that was asked for,
/// those with a process only while it lives, and no others: in table order, each slot
/// once.
pub proof fn law_reported_exactly(
    table: Seq<NodeView>,
    domain_id: u32,
    alive: Seq<bool>,
    node_id: u64,
)
    ensures
        (exists|j: int|
            0 <= j < reported_nodes(table, domain_id, alive).len() && (
            #[trigger] reported_nodes(table, domain_id, alive)[j]).node_id == node_id) <==> (exists|
            i: int,
        |
            0 <= i < table.len() && (#[trigger] table[i]).node_id == node_id && table[i].state == 2
                && table[i].domain_id == domain_id && table[i].daemon_origin == 0 && (table[i].pid
                == 0 || alive[i])),
        forall|j: int|
            0 <= j < reported_nodes(table, domain_id, alive).len() ==> (
            #[trigger] reported_nodes(table, domain_id, alive)[j]).domain_id == domain_id,
    decreases table.len(),
{
    if table.len() > 0 {
        let init = table.drop_last();
        let rest = reported_nodes(init, domain_id, alive);
        let all = reported_nodes(table, domain_id, alive);
        let last = table.len() - 1;
        law_reported_exactly(init, domain_id, alive, node_id);
        assert forall|j: int| 0 <= j < all.len() implies (#[trigger] all[j]).domain_id
            == domain_id by {
            if j < rest.len() {
                assert(all[j] == rest[j]);
            }
        }
        if exists|j: int| 0 <= j < all.len() && (#[trigger] all[j]).node_id == node_id {
            let j = choose|j: int| 0 <= j < all.len() && (#[trigger] all[j]).node_id == node_id;
            if j < rest.len() {
                assert(rest[j].node_id == node_id);
                let i = choose|i: int|
                    0 <= i < init.len() && (#[trigger] init[i]).node_id == node_id && init[i].state
                        == 2 && init[i].domain_id == domain_id && init[i].daemon_origin == 0 && (
                    init[i].pid == 0 || alive[i]);
                assert(table[i] == init[i]);
            } else {
                assert(table[last].node_id == node_id);
            }
        }
        if exists|i: int|
            0 <= i < table.len() && (#[trigger] table[i]).node_id == node_id && table[i].state == 2
                && table[i].domain_id == domain_id && table[i].daemon_origin == 0 && (table[i].pid
                == 0 || alive[i]) {
            let i = choose|i: int|
                0 <= i < table.len() && (#[trigger] table[i]).node_id == node_id && table[i].state
                    == 2 && table[i].domain_id == domain_id && table[i].daemon_origin == 0 && (
                table[i].pid == 0 || alive[i]);
            if i < last {
                assert(init[i] == table[i]);
                let j = choose|j: int|
                    0 <= j < rest.len() && (#[trigger] rest[j]).node_id == node_id;
                assert(all[j].node_id == node_id);
            } else {
                assert(all[rest.len() as int].node_id == node_id);
            }
        }
    }
}

proof fn lemma_with_nodes_leave(
    table: Seq<NodeView>,
    ns: Seq<NodeInfoView>,
    origin: u64,
    now: u64,
    count: int,
    i: int,
)
    requires
        0 <= i < table.len(),
        0 <= count <= ns.len(),
        table[i].state != 0,
        !node_ids(ns).contains(table[i].node_id),
    ensures
        ({
            let t = with_nodes(table, ns, origin, now, count).0;
            &&& t.len() == table.len()
            &&& t[i] == (NodeView {
                remote_matches: t[i].remote_matches,
                match_count: t[i].match_count,
                response_gen: t[i].response_gen,
                ..table[i]
            })
        }),
    decreases count,
{
    if count > 0 {
        lemma_with_nodes_leave(table, ns, origin, now, count - 1, i);
        let prev = with_nodes(table, ns, origin, now, count - 1).0;
        assert(node_ids(ns)[count - 1] == ns[count - 1].node_id);
        discovery_shm::lemma_slot_of_node(prev, ns[count - 1].node_id);
        discovery_shm::lemma_first_in_state(prev, SlotState::Empty.spec_value());
    }
}

/// A daemon's report is about its own nodes: a slot of this host or of another daemon
/// whose node was not reported keeps all but its matches.
pub proof fn law_merge_leaves_other_nodes(
    table: Seq<NodeView>,
    origin: u64,
    ns: Seq<NodeInfoView>,
    now: u64,
    i: int,
)
    requires
        0 <= i < table.len(),
        table[i].state != 0,
        table[i].daemon_origin != origin,
        forall|j: int| 0 <= j < ns.len() ==> (#[trigger] ns[j]).node_id != table[i].node_id,
    ensures
        ({
            let e = merged(table, origin, ns, now)[i];
            e == (NodeView {
                remote_matches: e.remote_matches,
                match_count: e.match_count,
                response_gen: e.response_gen,
                ..table[i]
            })
        }),
{
    let ids = node_ids(ns);
    if ids.contains(table[i].node_id) {
        let j = choose|j: int| 0 <= j < ids.len() && ids[j] == table[i].node_id;
        assert(ns[j].node_id == table[i].node_id);
    }
    let s = swept(table, origin, ids);
    assert(s[i] == table[i]);
    lemma_without_nodes_fields(s, swept_ids(table, origin, ids), true, i);
    lemma_with_nodes_leave(cleared_for(table, origin, ns), ns, origin, now, ns.len() as int, i);
}

/// A node that its daemon does not report any more is gone from the table, with what
/// its slot held, unless the slot was given to another node at once.
pub proof fn law_unreported_node_is_gone(
    table: Seq<NodeView>,
    origin: u64,
    ns: Seq<NodeInfoView>,
    now: u64,
    i: int,
)
    requires
        0 <= i < table.len(),
        origin != 0,
        table[i].state != 0,
        table[i].daemon_origin == origin,
        forall|j: int| 0 <= j < ns.len() ==> (#[trigger] ns[j]).node_id != table[i].node_id,
    ensures
        ({
            let e = merged(table, origin, ns, now)[i];
            e.state != 0 ==> e.node_id != table[i].node_id && e.daemon_origin == origin
        }),
{
    let ids = node_ids(ns);
    if ids.contains(table[i].node_id) {
        let j = choose|j: int| 0 <= j < ids.len() && ids[j] == table[i].node_id;
        assert(ns[j].node_id == table[i].node_id);
    }
    let s = swept(table, origin, ids);
    assert(s[i].state == 0);
    lemma_without_nodes_fields(s, swept_ids(table, origin, ids), true, i);
    lemma_with_nodes_reuse(
        cleared_for(table, origin, ns),
        ns,
        origin,
        now,
        ns.len() as int,
        i,
        table[i].node_id,
    );
}

proof fn lemma_with_nodes_reuse(
    table: Seq<NodeView>,
    ns: Seq<NodeInfoView>,
    origin: u64,
    now: u64,
    count: int,
    i: int,
    gone: u64,
)
    requires
        0 <= i < table.len(),
        0 <= count <= ns.len(),
        table[i].state == 0,
        forall|j: int| 0 <= j < ns.len() ==> (#[trigger] ns[j]).node_id != gone,
    ensures
        ({
            let t = with_nodes(table, ns, origin, now, count).0;
            &&& t.len() == table.len()
            &&& t[i].state != 0 ==> t[i].node_id != gone && t[i].daemon_origin == origin
        }),
    decreases count,
{
    if count > 0 {
        lemma_with_nodes_reuse(table, ns, origin, now, count - 1, i, gone);
        let prev = with_nodes(table, ns, origin, now, count - 1).0;
        assert(ns[count - 1].node_id != gone);
        discovery_shm::lemma_slot_of_node(prev, ns[count - 1].node_id);
        discovery_shm::lemma_first_in_state(prev, SlotState::Empty.spec_value());
    }
}

/// A node that one daemon reports and that is not in the table takes an unused slot,
/// and no used one.
pub proof fn law_new_node_takes_an_unused_slot(
    table: Seq<NodeView>,
    n: NodeInfoView,
    origin: u64,
    now: u64,
)
    requires
        forall|i: int|
            0 <= i < table.len() && table[i].state != 0 ==> (#[trigger] table[i]).node_id
                != n.node_id,
    ensures
        with_node(table, n, origin, now) is None <==> forall|i: int|
            0 <= i < table.len() ==> (#[trigger] table[i]).state != 0,
        with_node(table, n, origin, now) matches Some(next) ==> next.len() == table.len() && exists|
            k: int,
        |
            0 <= k < table.len() && (#[trigger] table[k]).state == 0 && next[k].state == 2
                && next[k].node_id == n.node_id && next[k].daemon_origin == origin
                && next[k].match_count == 0 && forall|i: int|
                0 <= i < table.len() && i != k ==> next[i] == #[trigger] table[i],
{
    discovery_shm::lemma_slot_of_node(table, n.node_id);
    discovery_shm::lemma_first_in_state(table, SlotState::Empty.spec_value());
    match discovery_shm::first_in_state(table, SlotState::Empty.spec_value()) {
        Some(k) => {
            assert(table[k].state == 0);
            let next = with_node(table, n, origin, now)->0;
            assert(next[k].state == 2);
        },
        None => {},
    }
}

/// A reported node counts as unchanged exactly if its slot has its domain, its port, its
/// addresses as far as eight, and its topics as far as 256, one by one and in their order,
/// and counts no more than those.
pub proof fn law_unchanged_exactly(e: NodeView, n: NodeInfoView)
    requires
        e.shaped(),
    ensures
        same_endpoints(e, n) <==> {
            &&& e.domain_id == n.domain_id
            &&& e.quic_port == n.quic_port
            &&& e.quic_addr_count <= n.quic_addrs.len()
            &&& e.quic_addr_count <= 8
            &&& n.quic_addrs.len() <= 8 ==> e.quic_addr_count == n.quic_addrs.len()
            &&& n.quic_addrs.len() > 8 ==> e.quic_addr_count == 8
            &&& forall|k: int|
                0 <= k < e.quic_addr_count ==> (#[trigger] e.quic_addrs[k]) == n.quic_addrs[k]
            &&& n.published_topics.len() <= 256 ==> e.pub_count == n.published_topics.len()
            &&& n.published_topics.len() > 256 ==> e.pub_count == 256
            &&& forall|k: int|
                0 <= k < e.pub_count ==> (#[trigger] e.published_topics[k]) == entry_of_topic(
                    n.published_topics[k],
                )
            &&& n.subscribed_topics.len() <= 256 ==> e.sub_count == n.subscribed_topics.len()
            &&& n.subscribed_topics.len() > 256 ==> e.sub_count == 256
            &&& forall|k: int|
                0 <= k < e.sub_count ==> (#[trigger] e.subscribed_topics[k]) == entry_of_topic(
                    n.subscribed_topics[k],
                )
        },
{
    let has = linking::reach(e);
    let wants = linking::first_addrs(n.quic_addrs, 8);
    if has == wants && e.quic_addr_count <= 8 {
        assert forall|k: int| 0 <= k < e.quic_addr_count implies (#[trigger] e.quic_addrs[k])
            == n.quic_addrs[k] by {
            assert(has[k] == wants[k]);
        }
    }
    if e.quic_addr_count == clipped(n.quic_addrs.len(), 8) && (forall|k: int|
        0 <= k < e.quic_addr_count ==> (#[trigger] e.quic_addrs[k]) == n.quic_addrs[k]) {
        assert forall|k: int| 0 <= k < has.len() implies has[k] == wants[k] by {
            assert(has[k] == e.quic_addrs[k]);
        }
        assert(has =~= wants);
    }
}

/// An empty message and one that opens with a four, a heartbeat, ask for no domain. A
/// message that opens with a one asks for the domain that its next four bytes give. Any
/// other is refused.
pub proof fn law_asked_domain_exactly(data: Seq<u8>)
    ensures
        data.len() == 0 ==> sync_reply_domain(data) == Ok::<_, Seq<char>>(None::<u32>),
        data.len() > 0 && data[0] == 4 ==> sync_reply_domain(data) == Ok::<_, Seq<char>>(
            None::<u32>,
        ),
        data.len() > 0 && data[0] != 4 && data[0] != 1 ==> sync_reply_domain(data) is Err,
        data.len() > 0 && data[0] == 1 ==> (sync_reply_domain(data) is Ok <==> data.len() >= 5
            && peer_sync::push_value(data) is Ok),
        sync_reply_domain(data) matches Ok(Some(d)) ==> data.len() >= 5 && data[0] == 1 && d
            == crate::bytes::le_value(data.subrange(1, 5)) as u32,
{
}

/// A message changes the table only if it is a request that names its sender by a number
/// other than zero and brings that sender's nodes.
pub proof fn law_only_pushed_nodes_change_the_table(table: Seq<NodeView>, data: Seq<u8>, now: u64)
    ensures
        brings_nodes(data) <==> (data.len() >= 5 && data[0] == 1 && (peer_sync::push_value(
            data,
        ) matches Ok(Some(x)) && x.0 != 0)),
        !brings_nodes(data) ==> table_after_sync(table, data, now) == table,
        brings_nodes(data) ==> (peer_sync::push_value(data) matches Ok(Some(x))
            && table_after_sync(table, data, now) == merged(table, x.0, x.1, now)),
{
}

/// What one daemon sends another is what the other merges: a request with nodes, once
/// written and read, has those nodes merged under the sender's number, and asks for its
/// domain.
pub proof fn law_sent_nodes_are_merged(
    table: Seq<NodeView>,
    domain_id: u32,
    daemon_id: u64,
    ns: Seq<NodeInfoView>,
    now: u64,
)
    requires
        daemon_id != 0,
        ns.len() < 0x1_0000_0000,
        forall|k: int| 0 <= k < ns.len() ==> peer_sync::node_fits(#[trigger] ns[k]),
    ensures
        ({
            let data = peer_sync::request_bytes(domain_id) + crate::bytes::le_bytes(
                daemon_id as nat,
                8,
            ) + peer_sync::response_bytes(domain_id, ns);
            &&& sync_reply_domain(data) == Ok::<_, Seq<char>>(Some(domain_id))
            &&& table_after_sync(table, data, now) == merged(table, daemon_id, ns, now)
        }),
{
    peer_sync::law_sync_request_round_trip(domain_id, daemon_id, ns);
    peer_sync::law_sync_layout(domain_id, ns);
    let data = peer_sync::request_bytes(domain_id) + crate::bytes::le_bytes(daemon_id as nat, 8)
        + peer_sync::response_bytes(domain_id, ns);
    assert(data[0] == 1);
}

/// A request is answered with the nodes of its domain, which the other daemon reads as
/// such; a heartbeat with a single five, and an empty message with nothing.
pub proof fn law_answers_by_kind(
    data: Seq<u8>,
    domain_id: u32,
    table: Seq<NodeView>,
    alive: Seq<bool>,
)
    ensures
        sync_answer(data, Some(domain_id), table, alive) == peer_sync::response_bytes(
            domain_id,
            reported_nodes(table, domain_id, alive),
        ),
        data.len() == 0 ==> sync_answer(data, None, table, alive).len() == 0,
        data.len() > 0 ==> sync_answer(data, None, table, alive) == seq![5u8],
{
}

/// Nodes are reported slot by slot in the order of the table, each as it stands in its
/// slot: with its number, its domain and its port, under its own name and its own
/// namespace, where a namespace that cannot be read is the root.
pub proof fn law_reported_in_table_order(
    table: Seq<NodeView>,
    e: NodeView,
    domain_id: u32,
    alive: Seq<bool>,
)
    ensures
        ({
            let before = reported_nodes(table, domain_id, alive);
            let all = reported_nodes(table.push(e), domain_id, alive);
            let told = e.state == 2 && e.domain_id == domain_id && e.daemon_origin == 0 && (e.pid == 0
                || alive[table.len() as int]);
            &&& !told ==> all == before
            &&& told ==> all.len() == before.len() + 1 && (forall|k: int|
                0 <= k < before.len() ==> (#[trigger] all[k]) == before[k])
            &&& told ==> all.last().node_id == e.node_id && all.last().domain_id == e.domain_id
                && all.last().quic_port == e.quic_port && all.last().node_name == field_text(
                e.node_name,
                Seq::empty(),
            ) && all.last().node_namespace == field_text(e.node_namespace, seq!['/'])
        }),
{
    reveal_strlit("/");
    assert("/"@ =~= seq!['/']);
    assert(table.push(e).drop_last() =~= table);
}

/// A name field is read up to its first zero, and what stands in for it is taken only
/// where those bytes are no text, or, where any name is wanted, where they are none.
pub proof fn law_name_field_is_read_exactly(b: Seq<u8>, default: Seq<char>)
    ensures
        valid_utf8(until_zero(b)) ==> field_text(b, default) == decode_utf8(until_zero(b)),
        !valid_utf8(until_zero(b)) ==> field_text(b, default) == default && field_text_or(b, default)
            == default,
        field_text(b, default).len() > 0 ==> field_text_or(b, default) == field_text(b, default),
        field_text(b, default).len() == 0 ==> field_text_or(b, default) == default,
{
}

} // verus!
