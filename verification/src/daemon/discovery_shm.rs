//! The node table that a daemon shares with the nodes of its host.
//!
//! The table lives in shared memory. Here it is a plain value: what a slot holds,
//! how topics match, and how a header is judged before the table is used.
use vstd::prelude::*;

use crate::text::{chars_of, find_last, nth_word_of, parse_unsigned};
#[allow(unused_imports)]
use crate::text;

verus! {

pub const SHM_NAME: &'static str = "/axon_daemon";

pub const MAGIC: u32 = 0x41584441;

pub const MAX_NODES: usize = 256;

pub const MAX_TOPICS_PER_NODE: usize = 256;

pub const MAX_MATCHES: usize = 1024;

pub const MAX_TOPIC_NAME_LEN: usize = 128;

pub const MAX_TOPIC_TYPE_LEN: usize = 128;

pub const MAX_NODE_NAME_LEN: usize = 128;

pub const MAX_NODE_NS_LEN: usize = 128;

pub const MAX_QUIC_ADDRS: usize = 8;

/// What a slot of the node table is used for.
#[derive(Clone, Copy, Debug, PartialEq, Eq, Structural)]
pub enum SlotState {
    Empty,
    Pending,
    Active,
    Leaving,
    Claiming,
}

impl SlotState {
    /// The byte that stands for the state in the table.
    pub open spec fn spec_value(self) -> u8 {
        match self {
            SlotState::Empty => 0,
            SlotState::Pending => 1,
            SlotState::Active => 2,
            SlotState::Leaving => 3,
            SlotState::Claiming => 4,
        }
    }

    /// The byte that stands for the state in the table.
    pub fn value(self) -> (r: u8)
        ensures
            r == self.spec_value(),
    {
        match self {
            SlotState::Empty => 0,
            SlotState::Pending => 1,
            SlotState::Active => 2,
            SlotState::Leaving => 3,
            SlotState::Claiming => 4,
        }
    }
}

/// One topic that a node publishes or subscribes to.
#[derive(Clone, Copy, PartialEq, Eq)]
pub struct TopicEntry {
    pub hash: u64,
    pub type_hash: u64,
    pub qos_reliability: u8,
    pub qos_durability: u8,
    pub qos_history_kind: u8,
    pub qos_history_depth: i32,
    pub qos_deadline_sec: u32,
    pub qos_deadline_nsec: u32,
    pub qos_lifespan_sec: u32,
    pub qos_lifespan_nsec: u32,
    pub qos_liveliness: u8,
    pub qos_liveliness_lease_sec: u32,
    pub qos_liveliness_lease_nsec: u32,
    pub topic_name: [u8; MAX_TOPIC_NAME_LEN],
    pub topic_type: [u8; MAX_TOPIC_TYPE_LEN],
    pub node_name: [u8; MAX_NODE_NAME_LEN],
    pub node_namespace: [u8; MAX_NODE_NS_LEN],
}

/// A topic entry with its name fields as byte sequences.
#[verifier::ext_equal]
pub struct TopicView {
    pub hash: u64,
    pub type_hash: u64,
    pub qos_reliability: u8,
    pub qos_durability: u8,
    pub qos_history_kind: u8,
    pub qos_history_depth: i32,
    pub qos_deadline_sec: u32,
    pub qos_deadline_nsec: u32,
    pub qos_lifespan_sec: u32,
    pub qos_lifespan_nsec: u32,
    pub qos_liveliness: u8,
    pub qos_liveliness_lease_sec: u32,
    pub qos_liveliness_lease_nsec: u32,
    pub topic_name: Seq<u8>,
    pub topic_type: Seq<u8>,
    pub node_name: Seq<u8>,
    pub node_namespace: Seq<u8>,
}

impl View for TopicEntry {
    type V = TopicView;

    open spec fn view(&self) -> TopicView {
        TopicView {
            hash: self.hash,
            type_hash: self.type_hash,
            qos_reliability: self.qos_reliability,
            qos_durability: self.qos_durability,
            qos_history_kind: self.qos_history_kind,
            qos_history_depth: self.qos_history_depth,
            qos_deadline_sec: self.qos_deadline_sec,
            qos_deadline_nsec: self.qos_deadline_nsec,
            qos_lifespan_sec: self.qos_lifespan_sec,
            qos_lifespan_nsec: self.qos_lifespan_nsec,
            qos_liveliness: self.qos_liveliness,
            qos_liveliness_lease_sec: self.qos_liveliness_lease_sec,
            qos_liveliness_lease_nsec: self.qos_liveliness_lease_nsec,
            topic_name: self.topic_name@,
            topic_type: self.topic_type@,
            node_name: self.node_name@,
            node_namespace: self.node_namespace@,
        }
    }
}

/// `n` zero bytes.
pub open spec fn zero_bytes(n: nat) -> Seq<u8> {
    Seq::new(n, |i: int| 0u8)
}

/// The entry that an unused topic slot holds.
pub open spec fn blank_topic() -> TopicView {
    TopicView {
        hash: 0,
        type_hash: 0,
        qos_reliability: 0,
        qos_durability: 0,
        qos_history_kind: 0,
        qos_history_depth: 0,
        qos_deadline_sec: 0,
        qos_deadline_nsec: 0,
        qos_lifespan_sec: 0,
        qos_lifespan_nsec: 0,
        qos_liveliness: 0,
        qos_liveliness_lease_sec: 0,
        qos_liveliness_lease_nsec: 0,
        topic_name: zero_bytes(MAX_TOPIC_NAME_LEN as nat),
        topic_type: zero_bytes(MAX_TOPIC_TYPE_LEN as nat),
        node_name: zero_bytes(MAX_NODE_NAME_LEN as nat),
        node_namespace: zero_bytes(MAX_NODE_NS_LEN as nat),
    }
}

impl Default for TopicEntry {
    fn default() -> (r: Self)
        ensures
            r@ == blank_topic(),
    {
        let r = TopicEntry {
            hash: 0,
            type_hash: 0,
            qos_reliability: 0,
            qos_durability: 0,
            qos_history_kind: 0,
            qos_history_depth: 0,
            qos_deadline_sec: 0,
            qos_deadline_nsec: 0,
            qos_lifespan_sec: 0,
            qos_lifespan_nsec: 0,
            qos_liveliness: 0,
            qos_liveliness_lease_sec: 0,
            qos_liveliness_lease_nsec: 0,
            topic_name: [0u8; 128],
            topic_type: [0u8; 128],
            node_name: [0u8; 128],
            node_namespace: [0u8; 128],
        };
        proof {
            assert(r@ =~= blank_topic());
        }
        r
    }
}

/// One address at which a matching node can be reached for a topic.
#[derive(Clone, Copy)]
pub struct MatchEntry {
    pub node_id: u64,
    pub topic_hash: u64,
    pub port: u16,
    pub addr: [u8; 4],
}

/// The entry that an unused match slot holds.
pub open spec fn blank_match() -> MatchEntry {
    MatchEntry { node_id: 0, topic_hash: 0, port: 0, addr: [0u8, 0u8, 0u8, 0u8] }
}

impl Default for MatchEntry {
    fn default() -> (r: Self)
        ensures
            r == blank_match(),
    {
        MatchEntry { node_id: 0, topic_hash: 0, port: 0, addr: [0u8, 0u8, 0u8, 0u8] }
    }
}

/// One slot of the node table.
pub struct NodeTableEntry {
    pub state: u8,
    pub domain_id: u32,
    pub pid: u32,
    /// Start time of the process, in clock ticks since boot.
    pub proc_starttime: u64,
    pub pub_count: u32,
    pub sub_count: u32,
    pub quic_port: u16,
    pub match_count: u32,
    pub node_id: u64,
    pub response_gen: u64,
    pub quic_addr_count: u32,
    pub quic_addrs: [[u8; 4]; MAX_QUIC_ADDRS],
    /// Zero for a node of this host, else the identity of the daemon that reported it.
    pub daemon_origin: u64,
    pub last_seen_secs: u64,
    pub node_name: [u8; MAX_NODE_NAME_LEN],
    pub node_namespace: [u8; MAX_NODE_NS_LEN],
    pub published_topics: Vec<TopicEntry>,
    pub subscribed_topics: Vec<TopicEntry>,
    pub remote_matches: Vec<MatchEntry>,
}

/// A slot with its arrays as sequences.
#[verifier::ext_equal]
pub struct NodeView {
    pub state: u8,
    pub domain_id: u32,
    pub pid: u32,
    pub proc_starttime: u64,
    pub pub_count: u32,
    pub sub_count: u32,
    pub quic_port: u16,
    pub match_count: u32,
    pub node_id: u64,
    pub response_gen: u64,
    pub quic_addr_count: u32,
    pub quic_addrs: Seq<[u8; 4]>,
    pub daemon_origin: u64,
    pub last_seen_secs: u64,
    pub node_name: Seq<u8>,
    pub node_namespace: Seq<u8>,
    pub published_topics: Seq<TopicView>,
    pub subscribed_topics: Seq<TopicView>,
    pub remote_matches: Seq<MatchEntry>,
}

/// The views of a sequence of topic entries.
pub open spec fn topics_view(topics: Seq<TopicEntry>) -> Seq<TopicView> {
    topics.map_values(|t: TopicEntry| t@)
}

/// The views of a sequence of slots.
pub open spec fn table_view(table: Seq<NodeTableEntry>) -> Seq<NodeView> {
    table.map_values(|e: NodeTableEntry| e@)
}

impl View for NodeTableEntry {
    type V = NodeView;

    open spec fn view(&self) -> NodeView {
        NodeView {
            state: self.state,
            domain_id: self.domain_id,
            pid: self.pid,
            proc_starttime: self.proc_starttime,
            pub_count: self.pub_count,
            sub_count: self.sub_count,
            quic_port: self.quic_port,
            match_count: self.match_count,
            node_id: self.node_id,
            response_gen: self.response_gen,
            quic_addr_count: self.quic_addr_count,
            quic_addrs: self.quic_addrs@,
            daemon_origin: self.daemon_origin,
            last_seen_secs: self.last_seen_secs,
            node_name: self.node_name@,
            node_namespace: self.node_namespace@,
            published_topics: topics_view(self.published_topics@),
            subscribed_topics: topics_view(self.subscribed_topics@),
            remote_matches: self.remote_matches@,
        }
    }
}

impl NodeView {
    /// Whether the arrays of the slot have the sizes that the table gives them.
    pub open spec fn shaped(self) -> bool {
        &&& self.published_topics.len() == MAX_TOPICS_PER_NODE
        &&& self.subscribed_topics.len() == MAX_TOPICS_PER_NODE
        &&& self.remote_matches.len() == MAX_MATCHES
        &&& self.quic_addrs.len() == MAX_QUIC_ADDRS
        &&& self.node_name.len() == MAX_NODE_NAME_LEN
        &&& self.node_namespace.len() == MAX_NODE_NS_LEN
    }

    /// Whether the slot's topic counts stay within its topic arrays.
    pub open spec fn counts_fit(self) -> bool {
        &&& self.pub_count <= MAX_TOPICS_PER_NODE
        &&& self.sub_count <= MAX_TOPICS_PER_NODE
    }

    /// The topics that the node publishes.
    pub open spec fn pubs(self) -> Seq<TopicView> {
        self.published_topics.subrange(0, self.pub_count as int)
    }

    /// The topics that the node subscribes to.
    pub open spec fn subs(self) -> Seq<TopicView> {
        self.subscribed_topics.subrange(0, self.sub_count as int)
    }
}

/// Whether every slot of the table is shaped.
pub open spec fn table_shaped(table: Seq<NodeView>) -> bool {
    forall|i: int| 0 <= i < table.len() ==> (#[trigger] table[i]).shaped()
}

/// A slot that nothing uses.
pub open spec fn blank_node() -> NodeView {
    NodeView {
        state: 0,
        domain_id: 0,
        pid: 0,
        proc_starttime: 0,
        pub_count: 0,
        sub_count: 0,
        quic_port: 0,
        match_count: 0,
        node_id: 0,
        response_gen: 0,
        quic_addr_count: 0,
        quic_addrs: Seq::new(MAX_QUIC_ADDRS as nat, |i: int| [0u8, 0u8, 0u8, 0u8]),
        daemon_origin: 0,
        last_seen_secs: 0,
        node_name: zero_bytes(MAX_NODE_NAME_LEN as nat),
        node_namespace: zero_bytes(MAX_NODE_NS_LEN as nat),
        published_topics: Seq::new(MAX_TOPICS_PER_NODE as nat, |i: int| blank_topic()),
        subscribed_topics: Seq::new(MAX_TOPICS_PER_NODE as nat, |i: int| blank_topic()),
        remote_matches: Seq::new(MAX_MATCHES as nat, |i: int| blank_match()),
    }
}

/// `n` unused topic entries.
pub fn blank_topics(n: usize) -> (r: Vec<TopicEntry>)
    ensures
        topics_view(r@) == Seq::new(n as nat, |i: int| blank_topic()),
{
    let mut r: Vec<TopicEntry> = Vec::new();
    let mut i: usize = 0;
    while i < n
        invariant
            i <= n,
            r@.len() == i,
            forall|k: int| 0 <= k < i ==> (#[trigger] r@[k])@ == blank_topic(),
        decreases n - i,
    {
        r.push(TopicEntry::default());
        i += 1;
    }
    proof {
        assert(topics_view(r@) =~= Seq::new(n as nat, |i: int| blank_topic()));
    }
    r
}

/// `n` unused match entries.
pub fn blank_matches(n: usize) -> (r: Vec<MatchEntry>)
    ensures
        r@ == Seq::new(n as nat, |i: int| blank_match()),
{
    let mut r: Vec<MatchEntry> = Vec::new();
    let mut i: usize = 0;
    while i < n
        invariant
            i <= n,
            r@ == Seq::new(i as nat, |i: int| blank_match()),
        decreases n - i,
    {
        r.push(MatchEntry::default());
        i += 1;
        proof {
            assert(r@ =~= Seq::new(i as nat, |i: int| blank_match()));
        }
    }
    r
}

impl Default for NodeTableEntry {
    fn default() -> (r: Self)
        ensures
            r@ == blank_node(),
    {
        let r = NodeTableEntry {
            state: 0,
            domain_id: 0,
            pid: 0,
            proc_starttime: 0,
            pub_count: 0,
            sub_count: 0,
            quic_port: 0,
            match_count: 0,
            node_id: 0,
            response_gen: 0,
            quic_addr_count: 0,
            quic_addrs: [[0u8, 0u8, 0u8, 0u8]; 8],
            daemon_origin: 0,
            last_seen_secs: 0,
            node_name: [0u8; 128],
            node_namespace: [0u8; 128],
            published_topics: blank_topics(MAX_TOPICS_PER_NODE),
            subscribed_topics: blank_topics(MAX_TOPICS_PER_NODE),
            remote_matches: blank_matches(MAX_MATCHES),
        };
        proof {
            assert(r@ =~= blank_node());
        }
        r
    }
}

/// A span of time in nanoseconds.
pub open spec fn span_nanos(sec: u32, nsec: u32) -> nat {
    (sec * 1_000_000_000 + nsec) as nat
}

/// Whether what a publisher offers satisfies what a subscription asks for.
///
/// A history depth is the capacity of a local queue, so it takes no part.
pub open spec fn topics_qos_compatible(p: TopicView, s: TopicView) -> bool {
    let p_deadline = span_nanos(p.qos_deadline_sec, p.qos_deadline_nsec);
    let s_deadline = span_nanos(s.qos_deadline_sec, s.qos_deadline_nsec);
    let p_lifespan = span_nanos(p.qos_lifespan_sec, p.qos_lifespan_nsec);
    let s_lifespan = span_nanos(s.qos_lifespan_sec, s.qos_lifespan_nsec);
    &&& !(p.qos_reliability == 0 && s.qos_reliability == 1)
    &&& !(p.qos_durability == 0 && s.qos_durability == 1)
    &&& (p_deadline > 0 && s_deadline > 0 ==> p_deadline <= s_deadline)
    &&& !(p.qos_liveliness == 0 && s.qos_liveliness == 1)
    &&& (s.qos_liveliness == 2 ==> p.qos_liveliness == 2)
    &&& (p_lifespan > 0 && s_lifespan > 0 ==> p_lifespan >= s_lifespan)
}

/// Whether what a publisher offers satisfies what a subscription asks for.
pub fn topic_entry_qos_compatible(pub_entry: &TopicEntry, sub_entry: &TopicEntry) -> (r: bool)
    ensures
        r == topics_qos_compatible(pub_entry@, sub_entry@),
{
    if pub_entry.qos_reliability == 0 && sub_entry.qos_reliability == 1 {
        return false;
    }
    if sub_entry.qos_durability == 1 && pub_entry.qos_durability == 0 {
        return false;
    }
    let pub_dl_ns: u64 = (pub_entry.qos_deadline_sec as u64) * 1_000_000_000
        + pub_entry.qos_deadline_nsec as u64;
    let sub_dl_ns: u64 = (sub_entry.qos_deadline_sec as u64) * 1_000_000_000
        + sub_entry.qos_deadline_nsec as u64;
    if pub_dl_ns > 0 && sub_dl_ns > 0 && pub_dl_ns > sub_dl_ns {
        return false;
    }
    if sub_entry.qos_liveliness == 1 && pub_entry.qos_liveliness == 0 {
        return false;
    }
    if sub_entry.qos_liveliness == 2 && pub_entry.qos_liveliness != 2 {
        return false;
    }
    let pub_ls_ns: u64 = (pub_entry.qos_lifespan_sec as u64) * 1_000_000_000
        + pub_entry.qos_lifespan_nsec as u64;
    let sub_ls_ns: u64 = (sub_entry.qos_lifespan_sec as u64) * 1_000_000_000
        + sub_entry.qos_lifespan_nsec as u64;
    if pub_ls_ns > 0 && sub_ls_ns > 0 && pub_ls_ns < sub_ls_ns {
        return false;
    }
    true
}

/// Every topic entry is compatible with itself.
pub proof fn law_topic_qos_reflexive(t: TopicView)
    ensures
        topics_qos_compatible(t, t),
{
}

/// Whether one of `topics` has the given hash.
pub open spec fn has_hash(topics: Seq<TopicView>, hash: u64) -> bool {
    exists|k: int| 0 <= k < topics.len() && (#[trigger] topics[k]).hash == hash
}

/// The hashes of those `subs`, in order, that one of `pubs` has too.
pub open spec fn matched_hashes(pubs: Seq<TopicView>, subs: Seq<TopicView>) -> Seq<u64>
    decreases subs.len(),
{
    if subs.len() == 0 {
        Seq::empty()
    } else {
        let rest = matched_hashes(pubs, subs.drop_last());
        if has_hash(pubs, subs.last().hash) {
            rest.push(subs.last().hash)
        } else {
            rest
        }
    }
}

/// A hash is matched exactly if both sides have it.
pub proof fn law_matched_hashes_complete(pubs: Seq<TopicView>, subs: Seq<TopicView>, hash: u64)
    ensures
        matched_hashes(pubs, subs).contains(hash) <==> has_hash(pubs, hash) && has_hash(
            subs,
            hash,
        ),
    decreases subs.len(),
{
    if subs.len() > 0 {
        let init = subs.drop_last();
        let last = subs.last();
        let rest = matched_hashes(pubs, init);
        law_matched_hashes_complete(pubs, init, hash);
        if rest.contains(hash) {
            let k = choose|k: int| 0 <= k < rest.len() && rest[k] == hash;
            assert(matched_hashes(pubs, subs)[k] == hash);
            let j = choose|j: int| 0 <= j < init.len() && (#[trigger] init[j]).hash == hash;
            assert(subs[j].hash == hash);
        }
        if has_hash(pubs, last.hash) && last.hash == hash {
            assert(matched_hashes(pubs, subs)[rest.len() as int] == hash);
            assert(subs[subs.len() - 1].hash == hash);
        }
        if has_hash(pubs, hash) && has_hash(subs, hash) && last.hash != hash {
            let j = choose|j: int| 0 <= j < subs.len() && (#[trigger] subs[j]).hash == hash;
            assert(init[j].hash == hash);
        }
        if matched_hashes(pubs, subs).contains(hash) && !rest.contains(hash) {
            let k = choose|k: int|
                0 <= k < matched_hashes(pubs, subs).len() && matched_hashes(pubs, subs)[k] == hash;
            if k < rest.len() {
                assert(rest[k] == hash);
            }
            assert(subs[subs.len() - 1].hash == hash);
        }
    }
}

/// Whether one of the first `count` topics has the given hash.
fn any_has_hash(topics: &[TopicEntry], hash: u64) -> (r: bool)
    ensures
        r == has_hash(topics_view(topics@), hash),
{
    let mut i: usize = 0;
    while i < topics.len()
        invariant
            i <= topics@.len(),
            forall|k: int| 0 <= k < i ==> (#[trigger] topics@[k]).hash != hash,
        decreases topics@.len() - i,
    {
        if topics[i].hash == hash {
            proof {
                assert(topics_view(topics@)[i as int].hash == hash);
            }
            return true;
        }
        i += 1;
    }
    proof {
        assert forall|k: int| 0 <= k < topics_view(topics@).len() implies (
        #[trigger] topics_view(topics@)[k]).hash != hash by {
            assert(topics@[k].hash != hash);
        }
    }
    false
}

/// The hashes of those subscriptions, in order, that a publisher serves.
pub fn find_matches_by_hash(publishers: &[TopicEntry], subscribers: &[TopicEntry]) -> (r: Vec<u64>)
    ensures
        r@ == matched_hashes(topics_view(publishers@), topics_view(subscribers@)),
{
    let mut result: Vec<u64> = Vec::new();
    let ghost pubs = topics_view(publishers@);
    let ghost subs = topics_view(subscribers@);
    let mut i: usize = 0;
    proof {
        assert(subs.subrange(0, 0) =~= Seq::empty());
    }
    while i < subscribers.len()
        invariant
            i <= subscribers@.len(),
            pubs == topics_view(publishers@),
            subs == topics_view(subscribers@),
            result@ == matched_hashes(pubs, subs.subrange(0, i as int)),
        decreases subscribers@.len() - i,
    {
        proof {
            assert(subs.subrange(0, i + 1).drop_last() =~= subs.subrange(0, i as int));
        }
        if any_has_hash(publishers, subscribers[i].hash) {
            result.push(subscribers[i].hash);
        }
        i += 1;
    }
    proof {
        assert(subs.subrange(0, i as int) =~= subs);
    }
    result
}

/// The matches of one slot: its index, its node and each hash that `pubs` has too.
pub open spec fn slot_matches(idx: int, e: NodeView, pubs: Seq<TopicView>) -> Seq<
    (usize, u64, u64),
> {
    matched_hashes(pubs, e.subs()).map_values(|h: u64| (idx as usize, e.node_id, h))
}

/// The matches of every active slot of the domain, in table order.
pub open spec fn matching_nodes(
    table: Seq<NodeView>,
    domain_id: u32,
    pubs: Seq<TopicView>,
) -> Seq<(usize, u64, u64)>
    decreases table.len(),
{
    if table.len() == 0 {
        Seq::empty()
    } else {
        let rest = matching_nodes(table.drop_last(), domain_id, pubs);
        let last = table.last();
        if last.state == SlotState::Active.spec_value() && last.domain_id == domain_id {
            rest + slot_matches(table.len() - 1, last, pubs)
        } else {
            rest
        }
    }
}

/// Every subscription of an active node in the domain that one of `publishers` serves.
pub fn find_matching_nodes(
    node_table: &[NodeTableEntry],
    domain_id: u32,
    publishers: &[TopicEntry],
) -> (r: Vec<(usize, u64, u64)>)
    requires
        forall|i: int|
            0 <= i < node_table@.len() && (#[trigger] node_table@[i]).state
                == SlotState::Active.spec_value() && node_table@[i].domain_id == domain_id
                ==> node_table@[i].sub_count <= node_table@[i].subscribed_topics@.len(),
    ensures
        r@ == matching_nodes(table_view(node_table@), domain_id, topics_view(publishers@)),
{
    let mut result: Vec<(usize, u64, u64)> = Vec::new();
    let ghost table = table_view(node_table@);
    let ghost pubs = topics_view(publishers@);
    let mut idx: usize = 0;
    proof {
        assert(table.subrange(0, 0) =~= Seq::empty());
    }
    while idx < node_table.len()
        invariant
            idx <= node_table@.len(),
            table == table_view(node_table@),
            pubs == topics_view(publishers@),
            result@ == matching_nodes(table.subrange(0, idx as int), domain_id, pubs),
            forall|i: int|
                0 <= i < node_table@.len() && (#[trigger] node_table@[i]).state
                    == SlotState::Active.spec_value() && node_table@[i].domain_id == domain_id
                    ==> node_table@[i].sub_count <= node_table@[i].subscribed_topics@.len(),
        decreases node_table@.len() - idx,
    {
        let entry = &node_table[idx];
        let ghost before = result@;
        proof {
            assert(table.subrange(0, idx + 1).drop_last() =~= table.subrange(0, idx as int));
            assert(table.subrange(0, idx + 1).last() == entry@);
        }
        if entry.state == SlotState::Active.value() && entry.domain_id == domain_id {
            let ghost subs = entry@.subs();
            let mut k: usize = 0;
            proof {
                assert(subs.subrange(0, 0) =~= Seq::empty());
                assert(result@ =~= before + matched_hashes(pubs, subs.subrange(0, 0)).map_values(
                    |h: u64| (idx, entry.node_id, h),
                ));
            }
            while k < entry.sub_count as usize
                invariant
                    k <= entry.sub_count <= entry.subscribed_topics@.len(),
                    subs == entry@.subs(),
                    pubs == topics_view(publishers@),
                    result@ == before + matched_hashes(
                        pubs,
                        subs.subrange(0, k as int),
                    ).map_values(|h: u64| (idx, entry.node_id, h)),
                decreases entry.sub_count - k,
            {
                proof {
                    assert(subs.subrange(0, k + 1).drop_last() =~= subs.subrange(0, k as int));
                    assert(subs.subrange(0, k + 1).last() == entry.subscribed_topics@[k as int]@);
                }
                let hash: u64 = entry.subscribed_topics[k].hash;
                if any_has_hash(publishers, hash) {
                    result.push((idx, entry.node_id, hash));
                }
                k += 1;
                proof {
                    assert(result@ =~= before + matched_hashes(
                        pubs,
                        subs.subrange(0, k as int),
                    ).map_values(|h: u64| (idx, entry.node_id, h)));
                }
            }
            proof {
                assert(subs.subrange(0, k as int) =~= subs);
                assert(result@ =~= before + slot_matches(idx as int, entry@, pubs));
            }
        }
        idx += 1;
    }
    proof {
        assert(table.subrange(0, idx as int) =~= table);
    }
    result
}

/// The start time in a process status line: the twentieth word from two bytes behind
/// the last closing parenthesis on. Nothing where the line ends before that, where
/// that is inside a character, or where there is no such word or no number in it.
pub open spec fn status_starttime(stat: Seq<char>) -> Option<nat> {
    match text::last_index(stat, ')') {
        Some(p) => if p + 1 < stat.len() && (stat[p + 1] as u32) < 0x80 {
            match text::nth_word(stat.subrange(p + 2, stat.len() as int), 19) {
                Some(word) => text::unsigned_value(word, u64::MAX as nat),
                None => None,
            }
        } else {
            None
        },
        None => None,
    }
}

/// The start time in the text of `/proc/<pid>/stat`; nothing where the text cannot be
/// parsed.
pub fn read_proc_starttime(stat: &str) -> (r: Option<u64>)
    ensures
        match r {
            Some(t) => status_starttime(stat@) == Some(t as nat),
            None => status_starttime(stat@) is None,
        },
{
    let chars = chars_of(stat);
    let after_paren: usize = match find_last(&chars, ')') {
        Some(p) => p,
        None => {
            return None;
        },
    };
    if chars.len() - after_paren <= 1 || chars[after_paren + 1] as u32 >= 0x80 {
        return None;
    }
    match nth_word_of(&chars, after_paren + 2, chars.len(), 19) {
        Some(word) => parse_unsigned(&word, u64::MAX),
        None => None,
    }
}

/// Whether a status line speaks of a process that started at the given time and is
/// neither a zombie nor dead.
pub open spec fn status_alive(stat: Seq<char>, expected_starttime: u64) -> bool {
    match text::last_index(stat, ')') {
        Some(p) => {
            &&& p + 2 < stat.len()
            &&& stat[p + 2] != 'Z'
            &&& stat[p + 2] != 'X'
            &&& status_starttime(stat) == Some(expected_starttime as nat)
        },
        None => false,
    }
}

/// Whether the process that started at the given time is still alive, judged by the
/// text of `/proc/<pid>/stat` where that could be read.
pub fn is_process_alive(pid: u32, stat: Option<&str>, expected_starttime: u64) -> (r: bool)
    ensures
        r == (pid != 0 && match stat {
            Some(s) => status_alive(s@, expected_starttime),
            None => false,
        }),
{
    if pid == 0 {
        return false;
    }
    let stat: &str = match stat {
        Some(s) => s,
        None => {
            return false;
        },
    };
    let chars = chars_of(stat);
    let after_paren: usize = match find_last(&chars, ')') {
        Some(p) => p,
        None => {
            return false;
        },
    };
    if chars.len() - after_paren <= 2 {
        return false;
    }
    let state_char: char = chars[after_paren + 2];
    if state_char == 'Z' || state_char == 'X' {
        return false;
    }
    match read_proc_starttime(stat) {
        Some(current) => current == expected_starttime,
        None => false,
    }
}

/// Whether a slot's node counts as alive: by its process where it has one on this
/// host, else by having been reported by another daemon.
pub fn is_daemon_node_alive(entry: &NodeTableEntry, process_alive: bool) -> (r: bool)
    ensures
        r == (if entry.pid > 0 {
            process_alive
        } else {
            entry.daemon_origin != 0
        }),
{
    if entry.pid > 0 {
        process_alive
    } else {
        entry.daemon_origin != 0
    }
}

/// The head of the shared segment.
#[derive(Clone, Copy)]
pub struct ShmHeader {
    pub magic: u32,
    pub daemon_pid: u32,
    pub daemon_proc_starttime: u64,
    pub generation: u64,
    pub max_nodes: u32,
    pub max_topics: u32,
    pub max_matches: u32,
}

/// The size of a segment: its header and its table, in whole pages of 4096 bytes.
pub open spec fn segment_size(header_size: nat, entry_size: nat, max_nodes: u32) -> nat {
    (header_size + entry_size * max_nodes as nat + 4095) / 4096 * 4096
}

/// The size of a segment: its header and its table, in whole pages of 4096 bytes.
pub fn shm_full_size(header_size: usize, entry_size: usize, max_nodes: u32) -> (r: usize)
    requires
        header_size + entry_size * max_nodes + 4095 <= usize::MAX,
    ensures
        r == segment_size(header_size as nat, entry_size as nat, max_nodes),
{
    proof {
        assert(0 <= entry_size * max_nodes) by (nonlinear_arith);
    }
    let table_size: usize = entry_size * max_nodes as usize;
    (header_size + table_size + 4095) / 4096 * 4096
}

/// How a header is judged before the segment behind it is mapped: the segment's
/// size, or why it cannot be used.
pub open spec fn header_verdict(
    header: ShmHeader,
    header_size: nat,
    entry_size: nat,
    file_size: int,
) -> Result<nat, Seq<char>> {
    if header.magic != MAGIC {
        Err("bad magic"@)
    } else if header.max_nodes == 0 || header.max_nodes > 1024 {
        Err("invalid max_nodes in header"@)
    } else if header.max_topics != MAX_TOPICS_PER_NODE || header.max_matches != MAX_MATCHES {
        Err("discovery SHM layout does not match this build"@)
    } else if file_size < segment_size(header_size, entry_size, header.max_nodes) {
        Err("discovery SHM is smaller than expected for this build"@)
    } else {
        Ok(segment_size(header_size, entry_size, header.max_nodes))
    }
}

/// The node table of a daemon and its header.
pub struct ShmDiscovery {
    pub header: ShmHeader,
    pub node_table: Vec<NodeTableEntry>,
}

/// The first slot of `table` in the given state.
pub open spec fn first_in_state(table: Seq<NodeView>, state: u8) -> Option<int>
    decreases table.len(),
{
    if table.len() == 0 {
        None
    } else {
        match first_in_state(table.drop_last(), state) {
            Some(i) => Some(i),
            None => if table.last().state == state {
                Some(table.len() - 1)
            } else {
                None
            },
        }
    }
}

/// The first used slot of `table` that holds the node.
pub open spec fn slot_of_node(table: Seq<NodeView>, node_id: u64) -> Option<int>
    decreases table.len(),
{
    if table.len() == 0 {
        None
    } else {
        match slot_of_node(table.drop_last(), node_id) {
            Some(i) => Some(i),
            None => if table.last().state != 0 && table.last().node_id == node_id {
                Some(table.len() - 1)
            } else {
                None
            },
        }
    }
}

/// `first_in_state` is the least index in that state.
pub proof fn lemma_first_in_state(table: Seq<NodeView>, state: u8)
    ensures
        match first_in_state(table, state) {
            Some(i) => {
                &&& 0 <= i < table.len()
                &&& table[i].state == state
                &&& forall|k: int| 0 <= k < i ==> (#[trigger] table[k]).state != state
            },
            None => forall|k: int| 0 <= k < table.len() ==> (#[trigger] table[k]).state != state,
        },
    decreases table.len(),
{
    if table.len() > 0 {
        let init = table.drop_last();
        lemma_first_in_state(init, state);
        assert forall|k: int| 0 <= k < init.len() implies (#[trigger] table[k]) == init[k] by {}
    }
}

/// `slot_of_node` is the least used index that holds the node.
pub proof fn lemma_slot_of_node(table: Seq<NodeView>, node_id: u64)
    ensures
        match slot_of_node(table, node_id) {
            Some(i) => {
                &&& 0 <= i < table.len()
                &&& table[i].state != 0
                &&& table[i].node_id == node_id
                &&& forall|k: int|
                    0 <= k < i ==> !((#[trigger] table[k]).state != 0 && table[k].node_id
                        == node_id)
            },
            None => forall|k: int|
                0 <= k < table.len() ==> !((#[trigger] table[k]).state != 0 && table[k].node_id
                    == node_id),
        },
    decreases table.len(),
{
    if table.len() > 0 {
        let init = table.drop_last();
        lemma_slot_of_node(init, node_id);
        assert forall|k: int| 0 <= k < init.len() implies (#[trigger] table[k]) == init[k] by {}
    }
}

/// The first slot in the given state.
pub(crate) fn position_in_state(table: &[NodeTableEntry], state: u8) -> (r: Option<usize>)
    ensures
        r matches Some(i) ==> first_in_state(table_view(table@), state) == Some(i as int),
        r is None ==> first_in_state(table_view(table@), state) is None,
{
    let ghost view = table_view(table@);
    let mut i: usize = 0;
    proof {
        lemma_first_in_state(view, state);
    }
    while i < table.len()
        invariant
            i <= table@.len(),
            view == table_view(table@),
            forall|k: int| 0 <= k < i ==> (#[trigger] view[k]).state != state,
        decreases table@.len() - i,
    {
        if table[i].state == state {
            proof {
                lemma_first_in_state(view, state);
                assert(view[i as int].state == state);
            }
            return Some(i);
        }
        i += 1;
    }
    None
}

/// The first used slot that holds the node.
pub(crate) fn position_of_node(table: &[NodeTableEntry], node_id: u64) -> (r: Option<usize>)
    ensures
        r matches Some(i) ==> slot_of_node(table_view(table@), node_id) == Some(i as int),
        r is None ==> slot_of_node(table_view(table@), node_id) is None,
{
    let ghost view = table_view(table@);
    let mut i: usize = 0;
    proof {
        lemma_slot_of_node(view, node_id);
    }
    while i < table.len()
        invariant
            i <= table@.len(),
            view == table_view(table@),
            forall|k: int|
                0 <= k < i ==> !((#[trigger] view[k]).state != 0 && view[k].node_id == node_id),
        decreases table@.len() - i,
    {
        if table[i].state != 0 && table[i].node_id == node_id {
            proof {
                lemma_slot_of_node(view, node_id);
                assert(view[i as int].node_id == node_id);
            }
            return Some(i);
        }
        i += 1;
    }
    None
}

impl ShmDiscovery {
    /// The slots of the table.
    pub open spec fn table(self) -> Seq<NodeView> {
        table_view(self.node_table@)
    }

    /// Whether the table is as long as its header says, and every slot is shaped.
    pub open spec fn wf(self) -> bool {
        &&& self.node_table@.len() == self.header.max_nodes
        &&& table_shaped(self.table())
    }

    /// A fresh table of unused slots, ready for use.
    pub fn create(max_nodes: u32, daemon_pid: u32, daemon_proc_starttime: u64) -> (r: Self)
        ensures
            r.wf(),
            r.header == (ShmHeader {
                magic: MAGIC,
                daemon_pid,
                daemon_proc_starttime,
                generation: 0,
                max_nodes,
                max_topics: MAX_TOPICS_PER_NODE as u32,
                max_matches: MAX_MATCHES as u32,
            }),
            r.table() == Seq::new(max_nodes as nat, |i: int| blank_node()),
    {
        let mut node_table: Vec<NodeTableEntry> = Vec::new();
        let mut i: u32 = 0;
        while i < max_nodes
            invariant
                i <= max_nodes,
                node_table@.len() == i,
                forall|k: int| 0 <= k < i ==> (#[trigger] node_table@[k])@ == blank_node(),
            decreases max_nodes - i,
        {
            node_table.push(NodeTableEntry::default());
            i += 1;
        }
        let header = ShmHeader {
            magic: MAGIC,
            daemon_pid,
            daemon_proc_starttime,
            generation: 0,
            max_nodes,
            max_topics: MAX_TOPICS_PER_NODE as u32,
            max_matches: MAX_MATCHES as u32,
        };
        proof {
            assert(table_view(node_table@) =~= Seq::new(max_nodes as nat, |i: int| blank_node()));
        }
        ShmDiscovery { header, node_table }
    }

    /// Judges the header of an existing segment: the size to map, or why not.
    pub fn open(header: &ShmHeader, header_size: usize, entry_size: usize, file_size: i64) -> (r:
        Result<usize, &'static str>)
        requires
            header_size + entry_size * 1024 + 4095 <= usize::MAX,
        ensures
            match r {
                Ok(size) => header_verdict(
                    *header,
                    header_size as nat,
                    entry_size as nat,
                    file_size as int,
                ) == Ok::<nat, Seq<char>>(size as nat),
                Err(e) => header_verdict(
                    *header,
                    header_size as nat,
                    entry_size as nat,
                    file_size as int,
                ) == Err::<nat, Seq<char>>(e@),
            },
    {
        if header.magic != MAGIC {
            return Err("bad magic");
        }
        if header.max_nodes == 0 || header.max_nodes > 1024 {
            return Err("invalid max_nodes in header");
        }
        if header.max_topics != MAX_TOPICS_PER_NODE as u32 || header.max_matches
            != MAX_MATCHES as u32 {
            return Err("discovery SHM layout does not match this build");
        }
        proof {
            let n = header.max_nodes;
            assert(entry_size * n <= entry_size * 1024) by (nonlinear_arith)
                requires
                    n <= 1024,
            ;
        }
        let full_size: usize = shm_full_size(header_size, entry_size, header.max_nodes);
        if file_size < 0 || (file_size as u64) < full_size as u64 {
            return Err("discovery SHM is smaller than expected for this build");
        }
        Ok(full_size)
    }

    /// The first unused slot.
    pub fn find_free_slot(&self) -> (r: Option<usize>)
        ensures
            r matches Some(i) ==> first_in_state(self.table(), 0) == Some(i as int),
            r is None ==> first_in_state(self.table(), 0) is None,
    {
        position_in_state(&self.node_table, 0)
    }

    /// Takes the first unused slot: it is being claimed from then on.
    pub fn claim_free_slot(&mut self) -> (r: Option<usize>)
        ensures
            final(self).header == old(self).header,
            match r {
                Some(i) => {
                    &&& first_in_state(old(self).table(), 0) == Some(i as int)
                    &&& final(self).table() == old(self).table().update(
                        i as int,
                        NodeView {
                            state: SlotState::Claiming.spec_value(),
                            ..old(self).table()[i as int]
                        },
                    )
                },
                None => {
                    &&& first_in_state(old(self).table(), 0) is None
                    &&& final(self).table() == old(self).table()
                },
            },
    {
        match position_in_state(&self.node_table, SlotState::Empty.value()) {
            Some(i) => {
                proof {
                    lemma_first_in_state(self.table(), 0);
                }
                self.node_table[i].state = SlotState::Claiming.value();
                proof {
                    assert(self.table() =~= old(self).table().update(
                        i as int,
                        NodeView {
                            state: SlotState::Claiming.spec_value(),
                            ..old(self).table()[i as int]
                        },
                    ));
                }
                Some(i)
            },
            None => None,
        }
    }

    /// The first used slot that holds the node.
    pub fn find_slot_by_node_id(&self, node_id: u64) -> (r: Option<usize>)
        ensures
            r matches Some(i) ==> slot_of_node(self.table(), node_id) == Some(i as int),
            r is None ==> slot_of_node(self.table(), node_id) is None,
    {
        position_of_node(&self.node_table, node_id)
    }
}

/// Claiming twice never hands out one slot twice: once a slot is claimed, the next
/// claim takes a later one.
pub proof fn law_claims_are_exclusive(table: Seq<NodeView>, first: int, second: int)
    requires
        first_in_state(table, 0) == Some(first),
        first_in_state(
            table.update(
                first,
                NodeView { state: SlotState::Claiming.spec_value(), ..table[first] },
            ),
            0,
        ) == Some(second),
    ensures
        first < second,
{
    let claimed = table.update(
        first,
        NodeView { state: SlotState::Claiming.spec_value(), ..table[first] },
    );
    lemma_first_in_state(table, 0);
    lemma_first_in_state(claimed, 0);
    if second < first {
        assert(table[second].state == claimed[second].state);
    }
}

/// A subscription that asks for best effort, volatile, automatic liveliness and no spans
/// meets every publisher.
pub proof fn law_least_subscription_meets_all(p: TopicView, s: TopicView)
    requires
        s.qos_reliability == 0,
        s.qos_durability == 0,
        s.qos_liveliness == 0,
        s.qos_deadline_sec == 0 && s.qos_deadline_nsec == 0,
        s.qos_lifespan_sec == 0 && s.qos_lifespan_nsec == 0,
    ensures
        topics_qos_compatible(p, s),
{
}

/// A publisher that offers more keeps its subscribers: more reliability or durability, a
/// stronger liveliness, a shorter deadline or a longer lifespan.
pub proof fn law_raised_topic_keeps_its_match(
    p: TopicView,
    s: TopicView,
    raised: TopicView,
)
    requires
        topics_qos_compatible(p, s),
    ensures
        topics_qos_compatible(TopicView { qos_reliability: 1, ..p }, s),
        topics_qos_compatible(TopicView { qos_durability: 1, ..p }, s),
        topics_qos_compatible(TopicView { qos_liveliness: 2, ..p }, s),
        raised == (TopicView {
            qos_deadline_sec: raised.qos_deadline_sec,
            qos_deadline_nsec: raised.qos_deadline_nsec,
            ..p
        }) && raised.qos_deadline_sec * 1_000_000_000 + raised.qos_deadline_nsec
            <= p.qos_deadline_sec * 1_000_000_000 + p.qos_deadline_nsec ==> topics_qos_compatible(
            raised,
            s,
        ),
        raised == (TopicView {
            qos_lifespan_sec: raised.qos_lifespan_sec,
            qos_lifespan_nsec: raised.qos_lifespan_nsec,
            ..p
        }) && 0 < p.qos_lifespan_sec * 1_000_000_000 + p.qos_lifespan_nsec
            <= raised.qos_lifespan_sec * 1_000_000_000 + raised.qos_lifespan_nsec
            ==> topics_qos_compatible(raised, s),
{
}

/// A subscription that asks for less keeps its publishers.
pub proof fn law_lowered_subscription_keeps_its_match(
    p: TopicView,
    s: TopicView,
    lowered: TopicView,
)
    requires
        topics_qos_compatible(p, s),
    ensures
        topics_qos_compatible(p, TopicView { qos_reliability: 0, ..s }),
        topics_qos_compatible(p, TopicView { qos_durability: 0, ..s }),
        topics_qos_compatible(p, TopicView { qos_liveliness: 0, ..s }),
        s.qos_liveliness == 2 ==> topics_qos_compatible(p, TopicView { qos_liveliness: 1, ..s }),
        lowered == (TopicView {
            qos_deadline_sec: lowered.qos_deadline_sec,
            qos_deadline_nsec: lowered.qos_deadline_nsec,
            ..s
        }) && 0 < s.qos_deadline_sec * 1_000_000_000 + s.qos_deadline_nsec
            <= lowered.qos_deadline_sec * 1_000_000_000 + lowered.qos_deadline_nsec
            ==> topics_qos_compatible(p, lowered),
        lowered == (TopicView {
            qos_lifespan_sec: lowered.qos_lifespan_sec,
            qos_lifespan_nsec: lowered.qos_lifespan_nsec,
            ..s
        }) && lowered.qos_lifespan_sec * 1_000_000_000 + lowered.qos_lifespan_nsec
            <= s.qos_lifespan_sec * 1_000_000_000 + s.qos_lifespan_nsec ==> topics_qos_compatible(
            p,
            lowered,
        ),
{
}

/// A span that either side leaves open decides nothing.
pub proof fn law_open_topic_span_decides_nothing(p: TopicView, s: TopicView)
    requires
        topics_qos_compatible(p, s),
    ensures
        topics_qos_compatible(TopicView { qos_deadline_sec: 0, qos_deadline_nsec: 0, ..p }, s),
        topics_qos_compatible(p, TopicView { qos_deadline_sec: 0, qos_deadline_nsec: 0, ..s }),
        topics_qos_compatible(TopicView { qos_lifespan_sec: 0, qos_lifespan_nsec: 0, ..p }, s),
        topics_qos_compatible(p, TopicView { qos_lifespan_sec: 0, qos_lifespan_nsec: 0, ..s }),
{
}

/// What a subscription asks for and a publisher does not offer keeps the two apart.
pub proof fn law_unmet_subscription_keeps_apart(p: TopicView, s: TopicView)
    ensures
        p.qos_reliability == 0 && s.qos_reliability == 1 ==> !topics_qos_compatible(p, s),
        p.qos_durability == 0 && s.qos_durability == 1 ==> !topics_qos_compatible(p, s),
        p.qos_liveliness == 0 && s.qos_liveliness == 1 ==> !topics_qos_compatible(p, s),
        p.qos_liveliness != 2 && s.qos_liveliness == 2 ==> !topics_qos_compatible(p, s),
        0 < s.qos_deadline_sec * 1_000_000_000 + s.qos_deadline_nsec < p.qos_deadline_sec
            * 1_000_000_000 + p.qos_deadline_nsec ==> !topics_qos_compatible(p, s),
        0 < p.qos_lifespan_sec * 1_000_000_000 + p.qos_lifespan_nsec < s.qos_lifespan_sec
            * 1_000_000_000 + s.qos_lifespan_nsec ==> !topics_qos_compatible(p, s),
{
}

/// Neither names nor history nor leases decide whether two topics meet.
pub proof fn law_only_policies_keep_apart(p: TopicView, s: TopicView, q: TopicView, t: TopicView)
    requires
        q.qos_reliability == p.qos_reliability && t.qos_reliability == s.qos_reliability,
        q.qos_durability == p.qos_durability && t.qos_durability == s.qos_durability,
        q.qos_liveliness == p.qos_liveliness && t.qos_liveliness == s.qos_liveliness,
        q.qos_deadline_sec == p.qos_deadline_sec && t.qos_deadline_sec == s.qos_deadline_sec,
        q.qos_deadline_nsec == p.qos_deadline_nsec && t.qos_deadline_nsec == s.qos_deadline_nsec,
        q.qos_lifespan_sec == p.qos_lifespan_sec && t.qos_lifespan_sec == s.qos_lifespan_sec,
        q.qos_lifespan_nsec == p.qos_lifespan_nsec && t.qos_lifespan_nsec == s.qos_lifespan_nsec,
    ensures
        topics_qos_compatible(p, s) == topics_qos_compatible(q, t),
{
}

/// Hashes are matched subscription by subscription, in the order of the subscriptions: a
/// single subscription gives its hash where a publication has it, and nothing else.
pub proof fn law_hashes_are_matched_in_order(
    pubs: Seq<TopicView>,
    a: Seq<TopicView>,
    b: Seq<TopicView>,
)
    ensures
        matched_hashes(pubs, a + b) == matched_hashes(pubs, a) + matched_hashes(pubs, b),
        a.len() == 1 && (exists|k: int|
            0 <= k < pubs.len() && (#[trigger] pubs[k]).hash == a[0].hash) ==> matched_hashes(
            pubs,
            a,
        ) == seq![a[0].hash],
        a.len() == 1 && !(exists|k: int|
            0 <= k < pubs.len() && (#[trigger] pubs[k]).hash == a[0].hash) ==> matched_hashes(
            pubs,
            a,
        ).len() == 0,
    decreases b.len(),
{
    if a.len() == 1 {
        assert(a.drop_last() =~= Seq::empty());
        assert(matched_hashes(pubs, a.drop_last()) =~= Seq::empty());
        if has_hash(pubs, a[0].hash) {
            assert(matched_hashes(pubs, a) =~= seq![a[0].hash]);
        }
    }
    if b.len() == 0 {
        assert(a + b =~= a);
        assert(matched_hashes(pubs, a) + matched_hashes(pubs, b) =~= matched_hashes(pubs, a));
    } else {
        law_hashes_are_matched_in_order(pubs, a, b.drop_last());
        assert((a + b).drop_last() =~= a + b.drop_last());
        assert(matched_hashes(pubs, a + b) =~= matched_hashes(pubs, a) + matched_hashes(pubs, b));
    }
}

/// Whether a slot's node is active in the domain and subscribes, among the subscriptions
/// that it counts, to a topic of this hash.
pub open spec fn subscribes(e: NodeView, domain_id: u32, hash: u64) -> bool {
    &&& e.state == 2
    &&& e.domain_id == domain_id
    &&& exists|k: int| 0 <= k < e.sub_count && (#[trigger] e.subscribed_topics[k]).hash == hash
}

/// A match is found exactly if its slot's node is active in the domain, is the node that
/// the match names, and subscribes to a topic that is published.
pub proof fn law_matches_are_found_exactly(
    table: Seq<NodeView>,
    domain_id: u32,
    pubs: Seq<TopicView>,
    slot: usize,
    node_id: u64,
    hash: u64,
)
    requires
        table.len() <= usize::MAX,
        forall|i: int|
            0 <= i < table.len() ==> (#[trigger] table[i]).sub_count
                <= table[i].subscribed_topics.len(),
    ensures
        matching_nodes(table, domain_id, pubs).contains((slot, node_id, hash)) <==> slot
            < table.len() && table[slot as int].node_id == node_id && subscribes(
            table[slot as int],
            domain_id,
            hash,
        ) && exists|k: int| 0 <= k < pubs.len() && (#[trigger] pubs[k]).hash == hash,
    decreases table.len(),
{
    let all = matching_nodes(table, domain_id, pubs);
    let x = (slot, node_id, hash);
    if table.len() > 0 {
        let init = table.drop_last();
        let last = table.last();
        let rest = matching_nodes(init, domain_id, pubs);
        assert forall|i: int| 0 <= i < init.len() implies (#[trigger] init[i]).sub_count
            <= init[i].subscribed_topics.len() by {
            assert(init[i] == table[i]);
        }
        law_matches_are_found_exactly(init, domain_id, pubs, slot, node_id, hash);
        let idx: int = table.len() - 1;
        if slot < idx {
            assert(init[slot as int] == table[slot as int]);
        }
        let hashes = matched_hashes(pubs, last.subs());
        law_matched_hashes_complete(pubs, last.subs(), hash);
        let found = slot_matches(idx, last, pubs);
        assert(found.contains(x) <==> slot == idx && last.node_id == node_id && hashes.contains(
            hash,
        )) by {
            if found.contains(x) {
                let k = choose|k: int| 0 <= k < found.len() && found[k] == x;
                assert(hashes[k] == hash);
            }
            if slot == idx && last.node_id == node_id && hashes.contains(hash) {
                let k = choose|k: int| 0 <= k < hashes.len() && hashes[k] == hash;
                assert(found[k] == x);
            }
        }
        assert(table[idx] == last);
        assert(last.sub_count <= last.subscribed_topics.len());
        assert(has_hash(last.subs(), hash) <==> exists|k: int|
            0 <= k < last.sub_count && (#[trigger] last.subscribed_topics[k]).hash == hash) by {
            if has_hash(last.subs(), hash) {
                let k = choose|k: int|
                    0 <= k < last.subs().len() && (#[trigger] last.subs()[k]).hash == hash;
                assert(last.subscribed_topics[k].hash == hash);
            }
            if exists|k: int|
                0 <= k < last.sub_count && (#[trigger] last.subscribed_topics[k]).hash == hash {
                let k = choose|k: int|
                    0 <= k < last.sub_count && (#[trigger] last.subscribed_topics[k]).hash == hash;
                assert(last.subs()[k].hash == hash);
            }
        }
        if last.state == 2 && last.domain_id == domain_id {
            assert(all == rest + found);
            assert(all.contains(x) <==> rest.contains(x) || found.contains(x)) by {
                if all.contains(x) {
                    let k = choose|k: int| 0 <= k < all.len() && all[k] == x;
                    if k < rest.len() {
                        assert(rest[k] == x);
                    } else {
                        assert(found[k - rest.len()] == x);
                    }
                }
                if rest.contains(x) {
                    let k = choose|k: int| 0 <= k < rest.len() && rest[k] == x;
                    assert(all[k] == x);
                }
                if found.contains(x) {
                    let k = choose|k: int| 0 <= k < found.len() && found[k] == x;
                    assert(all[k + rest.len()] == x);
                }
            }
        } else {
            assert(all == rest);
        }
    }
}

/// Matches come slot by slot in the order of the table.
pub proof fn law_matches_in_table_order(table: Seq<NodeView>, domain_id: u32, pubs: Seq<TopicView>)
    requires
        table.len() <= usize::MAX,
    ensures
        forall|i: int|
            0 <= i < matching_nodes(table, domain_id, pubs).len() ==> (#[trigger] matching_nodes(
                table,
                domain_id,
                pubs,
            )[i]).0 < table.len(),
        forall|i: int, j: int|
            0 <= i <= j < matching_nodes(table, domain_id, pubs).len() ==> (
            #[trigger] matching_nodes(table, domain_id, pubs)[i]).0 <= (#[trigger] matching_nodes(
                table,
                domain_id,
                pubs,
            )[j]).0,
    decreases table.len(),
{
    if table.len() > 0 {
        let init = table.drop_last();
        let last = table.last();
        let rest = matching_nodes(init, domain_id, pubs);
        let all = matching_nodes(table, domain_id, pubs);
        let found = slot_matches(table.len() - 1, last, pubs);
        law_matches_in_table_order(init, domain_id, pubs);
        assert(forall|i: int| 0 <= i < rest.len() ==> (#[trigger] all[i]) == rest[i]);
        assert forall|i: int| rest.len() <= i < all.len() implies (#[trigger] all[i]).0
            == table.len() - 1 by {
            assert(all == rest + found);
            assert(all[i] == found[i - rest.len()]);
        }
    }
}

/// The byte of a slot's state: unused, waiting, active, leaving and being claimed, counted
/// from zero, so no two states share one.
pub proof fn law_state_bytes_differ(a: SlotState, b: SlotState)
    ensures
        a.spec_value() == b.spec_value() <==> a == b,
        a.spec_value() <= 4,
        a == SlotState::Empty <==> a.spec_value() == 0,
        a == SlotState::Pending <==> a.spec_value() == 1,
        a == SlotState::Active <==> a.spec_value() == 2,
        a == SlotState::Leaving <==> a.spec_value() == 3,
{
}

/// A segment has room for its header and every slot, is made of whole pages, and has no
/// page more than that takes.
pub proof fn law_segment_is_in_whole_pages(header_size: nat, entry_size: nat, max_nodes: u32)
    ensures
        ({
            let size = segment_size(header_size, entry_size, max_nodes);
            let used = header_size + entry_size * max_nodes as nat;
            &&& size % 4096 == 0
            &&& used <= size < used + 4096
        }),
{
}

/// A segment is mapped exactly if its header bears the mark, speaks of one to 1024 nodes,
/// 256 topics and 1024 matches each, and the file is as large as that takes. The size that
/// is mapped holds the header and the table and is no larger than the file.
pub proof fn law_segment_is_mapped_exactly(
    header: ShmHeader,
    header_size: nat,
    entry_size: nat,
    file_size: int,
)
    ensures
        header_verdict(header, header_size, entry_size, file_size) is Ok <==> header.magic
            == 0x41584441 && 1 <= header.max_nodes <= 1024 && header.max_topics == 256
            && header.max_matches == 1024 && file_size >= segment_size(
            header_size,
            entry_size,
            header.max_nodes,
        ),
        header_verdict(header, header_size, entry_size, file_size) matches Ok(size) ==> size
            <= file_size && size >= header_size + entry_size * header.max_nodes as nat,
{
}

/// What stands in front of the last closing parenthesis of a status line, the process's
/// name among it, does not decide: the start time is the twentieth word behind the
/// parenthesis and the character that follows it.
pub proof fn law_starttime_stands_behind_the_name(
    name: Seq<char>,
    blank: char,
    rest: Seq<char>,
)
    requires
        (blank as u32) < 0x80,
        blank != ')',
        !rest.contains(')'),
    ensures
        status_starttime(name.push(')').push(blank) + rest) == match text::nth_word(rest, 19) {
            Some(word) => text::unsigned_value(word, 0xffff_ffff_ffff_ffff),
            None => None,
        },
{
    lemma_last_parenthesis(name, blank, rest);
    let stat = name.push(')').push(blank) + rest;
    assert(stat.subrange(name.len() as int + 2, stat.len() as int) =~= rest);
}

proof fn lemma_last_parenthesis(name: Seq<char>, blank: char, rest: Seq<char>)
    requires
        blank != ')',
        !rest.contains(')'),
    ensures
        text::last_index(name.push(')').push(blank) + rest, ')') == Some(name.len() as int),
{
    let stat = name.push(')').push(blank) + rest;
    text::law_places_of_a_character(stat, ')');
    assert(stat[name.len() as int] == ')');
    let p = text::last_index(stat, ')')->0;
    if p > name.len() {
        if p >= name.len() + 2 {
            assert(rest[p - name.len() - 2] == ')');
        }
    }
}

/// A process is alive exactly if its status line gives the expected start time and its
/// state, the character behind the parenthesis and a blank, is neither that of a zombie
/// nor that of a dead process.
pub proof fn law_alive_exactly(name: Seq<char>, blank: char, rest: Seq<char>, starttime: u64)
    requires
        (blank as u32) < 0x80,
        blank != ')',
        !rest.contains(')'),
    ensures
        status_alive(name.push(')').push(blank) + rest, starttime) <==> rest.len() > 0 && rest[0]
            != 'Z' && rest[0] != 'X' && match text::nth_word(rest, 19) {
            Some(word) => text::unsigned_value(word, 0xffff_ffff_ffff_ffff) == Some(
                starttime as nat,
            ),
            None => false,
        },
{
    lemma_last_parenthesis(name, blank, rest);
    law_starttime_stands_behind_the_name(name, blank, rest);
}

/// A status line without a closing parenthesis tells no start time and no living process.
pub proof fn law_no_process_without_a_name(stat: Seq<char>, starttime: u64)
    requires
        !stat.contains(')'),
    ensures
        status_starttime(stat) is None,
        !status_alive(stat, starttime),
{
    text::law_places_of_a_character(stat, ')');
}

/// A slot shows its own fields.
pub proof fn law_slot_shows_its_fields(e: NodeTableEntry, t: TopicEntry)
    ensures
        e@.state == e.state && e@.domain_id == e.domain_id && e@.pid == e.pid,
        e@.proc_starttime == e.proc_starttime && e@.pub_count == e.pub_count,
        e@.sub_count == e.sub_count && e@.quic_port == e.quic_port,
        e@.match_count == e.match_count && e@.node_id == e.node_id,
        e@.response_gen == e.response_gen && e@.quic_addr_count == e.quic_addr_count,
        e@.daemon_origin == e.daemon_origin && e@.last_seen_secs == e.last_seen_secs,
        e@.quic_addrs == e.quic_addrs@ && e@.node_name == e.node_name@,
        e@.node_namespace == e.node_namespace@ && e@.remote_matches == e.remote_matches@,
        e@.published_topics.len() == e.published_topics@.len(),
        e@.subscribed_topics.len() == e.subscribed_topics@.len(),
        forall|k: int|
            0 <= k < e.published_topics@.len() ==> (#[trigger] e@.published_topics[k])
                == e.published_topics@[k]@,
        forall|k: int|
            0 <= k < e.subscribed_topics@.len() ==> (#[trigger] e@.subscribed_topics[k])
                == e.subscribed_topics@[k]@,
        t@.hash == t.hash && t@.type_hash == t.type_hash,
        t@.qos_reliability == t.qos_reliability && t@.qos_durability == t.qos_durability,
        t@.qos_history_kind == t.qos_history_kind && t@.qos_history_depth == t.qos_history_depth,
        t@.qos_deadline_sec == t.qos_deadline_sec && t@.qos_deadline_nsec == t.qos_deadline_nsec,
        t@.qos_lifespan_sec == t.qos_lifespan_sec && t@.qos_lifespan_nsec == t.qos_lifespan_nsec,
        t@.qos_liveliness == t.qos_liveliness,
        t@.qos_liveliness_lease_sec == t.qos_liveliness_lease_sec,
        t@.qos_liveliness_lease_nsec == t.qos_liveliness_lease_nsec,
{
}

} // verus!
