//! What the daemon does to its node table with the answer of another daemon, and
//! when another daemon falls silent.
use vstd::prelude::*;
use vstd::slice::slice_subrange;

use crate::daemon::discovery_shm;
use crate::daemon::discovery_shm::{
    position_in_state, position_of_node, NodeTableEntry, NodeView, ShmDiscovery, ShmHeader,
    SlotState, TopicEntry, TopicView, MAX_NODES, MAX_NODE_NAME_LEN, MAX_NODE_NS_LEN,
    MAX_QUIC_ADDRS, MAX_TOPICS_PER_NODE,
};
use crate::daemon::linking;
use crate::daemon::linking::process_topic_updates;
use crate::daemon::match_list;
use crate::daemon::match_list::{drop_table_matches, id_listed, remove_matches_for_nodes};
use crate::daemon::peer_merge;
use crate::daemon::peer_merge::{
    copy_str, ids_of, peer_node_endpoints_match, topic_info_to_entry,
};
#[allow(unused_imports)]
use crate::daemon::peer_sync;
use crate::daemon::peer_sync::{NodeInfoView, PeerNodeInfo, PeerTopicInfo, TopicInfoView};

verus! {

/// Why slots of another daemon are given up: its answer lists the nodes that stay,
/// or nothing was heard of it.
#[verifier::ext_equal]
pub enum Leaving {
    Unreported(Seq<u64>),
    Silent,
}

/// Whether a slot of daemon `origin` is given up.
pub open spec fn leaves(e: NodeView, origin: u64, why: Leaving) -> bool {
    match why {
        Leaving::Unreported(ids) => e.state != SlotState::Empty.spec_value() && e.daemon_origin
            == origin && !ids.contains(e.node_id),
        Leaving::Silent => (e.state == SlotState::Active.spec_value() || e.state
            == SlotState::Pending.spec_value()) && e.daemon_origin == origin && e.pid == 0,
    }
}

/// A slot once it is given up. Its process start time, port and addresses stay.
pub open spec fn retired(e: NodeView) -> NodeView {
    NodeView {
        proc_starttime: e.proc_starttime,
        quic_port: e.quic_port,
        quic_addrs: e.quic_addrs,
        ..discovery_shm::blank_node()
    }
}

/// The table with the slots that leave given up.
pub open spec fn vacated(table: Seq<NodeView>, origin: u64, why: Leaving) -> Seq<NodeView> {
    table.map_values(
        |e: NodeView|
            if leaves(e, origin, why) {
                retired(e)
            } else {
                e
            },
    )
}

/// The nodes in the slots that leave, in table order.
pub open spec fn leaving_ids(table: Seq<NodeView>, origin: u64, why: Leaving) -> Seq<u64>
    decreases table.len(),
{
    if table.len() == 0 {
        Seq::empty()
    } else {
        let rest = leaving_ids(table.drop_last(), origin, why);
        let last = table.last();
        if leaves(last, origin, why) && last.node_id != 0 {
            rest.push(last.node_id)
        } else {
            rest
        }
    }
}

/// The table once the slots that leave are given up and the matches of their nodes
/// are gone.
pub open spec fn without_leaving(table: Seq<NodeView>, origin: u64, why: Leaving) -> Seq<NodeView> {
    match_list::without_nodes(vacated(table, origin, why), leaving_ids(table, origin, why), false)
}

/// Gives a slot up.
fn retire(entry: &mut NodeTableEntry)
    ensures
        final(entry)@ == retired(old(entry)@),
{
    let proc_starttime: u64 = entry.proc_starttime;
    let quic_port: u16 = entry.quic_port;
    let quic_addrs = entry.quic_addrs;
    *entry = NodeTableEntry::default();
    entry.proc_starttime = proc_starttime;
    entry.quic_port = quic_port;
    entry.quic_addrs = quic_addrs;
}

/// Why slots are given up, as `reported` says: the nodes that stay, or none where
/// the daemon fell silent.
pub open spec fn reason(reported: Option<&Vec<u64>>) -> Leaving {
    match reported {
        Some(ids) => Leaving::Unreported(ids@),
        None => Leaving::Silent,
    }
}

/// Gives the slots that leave up and drops the matches of their nodes.
fn vacate(table: &mut Vec<NodeTableEntry>, origin: u64, reported: Option<&Vec<u64>>)
    requires
        discovery_shm::table_shaped(discovery_shm::table_view(old(table)@)),
    ensures
        discovery_shm::table_shaped(discovery_shm::table_view(final(table)@)),
        final(table)@.len() == old(table)@.len(),
        discovery_shm::table_view(final(table)@) == without_leaving(
            discovery_shm::table_view(old(table)@),
            origin,
            reason(reported),
        ),
{
    let ghost before = discovery_shm::table_view(table@);
    let ghost why = reason(reported);
    let mut cleared: Vec<u64> = Vec::new();
    let mut i: usize = 0;
    proof {
        assert(before.subrange(0, 0) =~= Seq::empty());
    }
    while i < table.len()
        invariant
            i <= table@.len(),
            table@.len() == before.len(),
            discovery_shm::table_shaped(before),
            why == reason(reported),
            forall|k: int| 0 <= k < i ==> (#[trigger] table@[k])@ == vacated(before, origin, why)[k],
            forall|k: int| i <= k < before.len() ==> (#[trigger] table@[k])@ == before[k],
            cleared@ == leaving_ids(before.subrange(0, i as int), origin, why),
        decreases table@.len() - i,
    {
        let ghost prior = table@;
        proof {
            assert(before.subrange(0, i + 1).drop_last() =~= before.subrange(0, i as int));
            assert(before.subrange(0, i + 1).last() == before[i as int]);
            assert(table@[i as int]@ == before[i as int]);
        }
        let node_id: u64 = table[i].node_id;
        let state: u8 = table[i].state;
        let goes = table[i].daemon_origin == origin && match reported {
            Some(ids) => state != SlotState::Empty.value() && !id_listed(ids, node_id),
            None => (state == SlotState::Active.value() || state == SlotState::Pending.value())
                && table[i].pid == 0,
        };
        if goes {
            retire(&mut table[i]);
            if node_id != 0 {
                cleared.push(node_id);
            }
        }
        proof {
            assert forall|k: int| 0 <= k < i implies (#[trigger] table@[k]) == prior[k] by {}
        }
        i += 1;
    }
    proof {
        assert(before.subrange(0, i as int) =~= before);
        let view = discovery_shm::table_view(table@);
        assert(view =~= vacated(before, origin, why));
        assert forall|k: int| 0 <= k < view.len() implies (#[trigger] view[k]).shaped() by {
            assert(before[k].shaped());
        }
    }
    remove_matches_for_nodes(table, &cleared, false);
}

/// Topic entries with the reported topics written over the first of them.
pub open spec fn topics_over(entries: Seq<TopicView>, topics: Seq<TopicInfoView>) -> Seq<TopicView> {
    Seq::new(
        entries.len(),
        |i: int|
            if i < topics.len() {
                peer_merge::entry_of_topic(topics[i])
            } else {
                entries[i]
            },
    )
}

/// Addresses with the reported ones written over the first of them.
pub open spec fn addrs_over(slots: Seq<[u8; 4]>, addrs: Seq<[u8; 4]>) -> Seq<[u8; 4]> {
    Seq::new(
        slots.len(),
        |i: int|
            if i < addrs.len() {
                addrs[i]
            } else {
                slots[i]
            },
    )
}

/// A slot once a node of an answer is written into it. What the node does not fill
/// of the topics and addresses stays; so do the process start time and the matches.
/// A slot that did not hold the node starts with no match and no generation.
pub open spec fn placed(
    e: NodeView,
    n: NodeInfoView,
    origin: u64,
    now: u64,
    fresh: bool,
) -> NodeView {
    NodeView {
        state: SlotState::Active.spec_value(),
        domain_id: n.domain_id,
        pid: 0,
        pub_count: peer_merge::clipped(
            n.published_topics.len(),
            MAX_TOPICS_PER_NODE as nat,
        ) as u32,
        sub_count: peer_merge::clipped(
            n.subscribed_topics.len(),
            MAX_TOPICS_PER_NODE as nat,
        ) as u32,
        quic_port: n.quic_port,
        match_count: if fresh {
            0
        } else {
            e.match_count
        },
        node_id: n.node_id,
        response_gen: if fresh {
            0
        } else {
            e.response_gen
        },
        quic_addr_count: peer_merge::clipped(n.quic_addrs.len(), MAX_QUIC_ADDRS as nat) as u32,
        quic_addrs: addrs_over(e.quic_addrs, n.quic_addrs),
        daemon_origin: origin,
        last_seen_secs: now,
        node_name: peer_merge::padded(n.node_name, MAX_NODE_NAME_LEN as nat),
        node_namespace: peer_merge::padded(n.node_namespace, MAX_NODE_NS_LEN as nat),
        published_topics: topics_over(e.published_topics, n.published_topics),
        subscribed_topics: topics_over(e.subscribed_topics, n.subscribed_topics),
        ..e
    }
}

/// Writes the reported topics over the first topic entries of a slot.
fn write_topics(entries: &mut Vec<TopicEntry>, topics: &Vec<PeerTopicInfo>)
    ensures
        discovery_shm::topics_view(final(entries)@) == topics_over(
            discovery_shm::topics_view(old(entries)@),
            peer_sync::infos_view(topics@),
        ),
{
    let ghost before = discovery_shm::topics_view(entries@);
    let ghost tv = peer_sync::infos_view(topics@);
    let mut i: usize = 0;
    while i < entries.len() && i < topics.len()
        invariant
            i <= entries@.len() == before.len(),
            i <= topics@.len(),
            tv == peer_sync::infos_view(topics@),
            forall|k: int|
                0 <= k < i ==> (#[trigger] entries@[k])@ == peer_merge::entry_of_topic(tv[k]),
            forall|k: int| i <= k < before.len() ==> (#[trigger] entries@[k])@ == before[k],
        decreases entries@.len() - i,
    {
        assert(tv[i as int] == topics@[i as int]@);
        let ghost prior = entries@;
        entries.set(i, topic_info_to_entry(&topics[i]));
        proof {
            assert forall|k: int| 0 <= k < prior.len() && k != i implies (#[trigger] entries@[k])
                == prior[k] by {}
        }
        i += 1;
    }
    proof {
        assert(discovery_shm::topics_view(entries@) =~= topics_over(before, tv));
    }
}

/// Writes a node of an answer into a slot.
fn place_node(entry: &mut NodeTableEntry, node: &PeerNodeInfo, origin: u64, now: u64, fresh: bool)
    requires
        old(entry)@.shaped(),
    ensures
        final(entry)@ == placed(old(entry)@, node@, origin, now, fresh),
{
    let ghost before = entry@;
    entry.state = SlotState::Active.value();
    entry.node_id = node.node_id;
    entry.domain_id = node.domain_id;
    entry.pid = 0;
    entry.quic_port = node.quic_port;
    let addr_count: usize = if node.quic_addrs.len() <= MAX_QUIC_ADDRS {
        node.quic_addrs.len()
    } else {
        MAX_QUIC_ADDRS
    };
    let mut addrs = entry.quic_addrs;
    let mut i: usize = 0;
    while i < addr_count
        invariant
            i <= addr_count <= MAX_QUIC_ADDRS,
            addr_count <= node.quic_addrs@.len(),
            before.quic_addrs.len() == MAX_QUIC_ADDRS,
            forall|k: int| 0 <= k < i ==> (#[trigger] addrs@[k]) == node.quic_addrs@[k],
            forall|k: int|
                i <= k < MAX_QUIC_ADDRS ==> (#[trigger] addrs@[k]) == before.quic_addrs[k],
        decreases addr_count - i,
    {
        addrs[i] = node.quic_addrs[i];
        i += 1;
    }
    proof {
        assert(addrs@ =~= addrs_over(before.quic_addrs, node@.quic_addrs));
    }
    entry.quic_addrs = addrs;
    entry.quic_addr_count = addr_count as u32;
    entry.daemon_origin = origin;
    entry.last_seen_secs = now;
    entry.pub_count = if node.published_topics.len() <= MAX_TOPICS_PER_NODE {
        node.published_topics.len() as u32
    } else {
        MAX_TOPICS_PER_NODE as u32
    };
    entry.sub_count = if node.subscribed_topics.len() <= MAX_TOPICS_PER_NODE {
        node.subscribed_topics.len() as u32
    } else {
        MAX_TOPICS_PER_NODE as u32
    };
    write_topics(&mut entry.published_topics, &node.published_topics);
    write_topics(&mut entry.subscribed_topics, &node.subscribed_topics);
    copy_str(&mut entry.node_name, &node.node_name);
    copy_str(&mut entry.node_namespace, &node.node_namespace);
    if fresh {
        entry.match_count = 0;
        entry.response_gen = 0;
    }
    proof {
        assert(entry@ =~= placed(before, node@, origin, now, fresh));
    }
}

/// The slots in which reported nodes are looked for and placed.
pub open spec fn window(table: Seq<NodeView>) -> Seq<NodeView> {
    if table.len() <= MAX_NODES {
        table
    } else {
        table.subrange(0, MAX_NODES as int)
    }
}

/// The table once a node of an answer is placed: in the slot that holds it, else in
/// the first unused one; a node without a slot is passed over. Where the node's
/// endpoint or topics changed, every match of it goes first.
pub open spec fn with_placed(
    table: Seq<NodeView>,
    n: NodeInfoView,
    origin: u64,
    now: u64,
) -> Seq<NodeView> {
    match discovery_shm::slot_of_node(window(table), n.node_id) {
        Some(k) => {
            let base = if peer_merge::same_endpoints(table[k], n) {
                table
            } else {
                match_list::drop_matches_everywhere(table, seq![n.node_id], false, false)
            };
            base.update(k, placed(base[k], n, origin, now, false))
        },
        None => match discovery_shm::first_in_state(
            window(table),
            SlotState::Empty.spec_value(),
        ) {
            Some(k) => table.update(k, placed(table[k], n, origin, now, true)),
            None => table,
        },
    }
}

/// The table once the first `count` nodes of an answer are placed.
pub open spec fn with_all_placed(
    table: Seq<NodeView>,
    ns: Seq<NodeInfoView>,
    origin: u64,
    now: u64,
    count: int,
) -> Seq<NodeView>
    decreases count,
{
    if count <= 0 {
        table
    } else {
        with_placed(with_all_placed(table, ns, origin, now, count - 1), ns[count - 1], origin, now)
    }
}

/// The table once the answer of daemon `origin` is taken over, before matches are
/// renewed.
pub open spec fn taken_over(
    table: Seq<NodeView>,
    origin: u64,
    ns: Seq<NodeInfoView>,
    now: u64,
) -> Seq<NodeView> {
    with_all_placed(
        without_leaving(table, origin, Leaving::Unreported(peer_merge::node_ids(ns))),
        ns,
        origin,
        now,
        ns.len() as int,
    )
}

/// Places one node of an answer.
fn place_in_table(table: &mut Vec<NodeTableEntry>, node: &PeerNodeInfo, origin: u64, now: u64)
    requires
        discovery_shm::table_shaped(discovery_shm::table_view(old(table)@)),
    ensures
        discovery_shm::table_shaped(discovery_shm::table_view(final(table)@)),
        final(table)@.len() == old(table)@.len(),
        discovery_shm::table_view(final(table)@) == with_placed(
            discovery_shm::table_view(old(table)@),
            node@,
            origin,
            now,
        ),
{
    let ghost before = discovery_shm::table_view(table@);
    let max: usize = if table.len() <= MAX_NODES {
        table.len()
    } else {
        MAX_NODES
    };
    let (held, unused) = {
        let slots = slice_subrange(table.as_slice(), 0, max);
        proof {
            assert(discovery_shm::table_view(slots@) =~= window(before));
        }
        let held = position_of_node(slots, node.node_id);
        let unused = position_in_state(slots, SlotState::Empty.value());
        (held, unused)
    };
    proof {
        discovery_shm::lemma_slot_of_node(window(before), node.node_id);
        discovery_shm::lemma_first_in_state(window(before), SlotState::Empty.spec_value());
    }
    match held {
        Some(k) => {
            proof {
                assert(before[k as int] == table@[k as int]@);
                assert(before[k as int].shaped());
            }
            if !peer_node_endpoints_match(&table[k], node) {
                let one: [u64; 1] = [node.node_id];
                drop_table_matches(table, one.as_slice(), false, false);
                proof {
                    assert(one@ =~= seq![node.node_id]);
                    assert(discovery_shm::table_view(table@).len() == before.len());
                }
            }
            let ghost base = discovery_shm::table_view(table@);
            assert(base[k as int] == table@[k as int]@);
            assert(base[k as int].shaped());
            place_node(&mut table[k], node, origin, now, false);
            proof {
                let e = placed(base[k as int], node@, origin, now, false);
                assert(discovery_shm::table_view(table@) =~= base.update(k as int, e));
                peer_merge::lemma_update_shaped(base, k as int, e);
            }
        },
        None => if let Some(k) = unused {
            proof {
                assert(before[k as int] == table@[k as int]@);
                assert(before[k as int].shaped());
            }
            place_node(&mut table[k], node, origin, now, true);
            proof {
                let e = placed(before[k as int], node@, origin, now, true);
                assert(discovery_shm::table_view(table@) =~= before.update(k as int, e));
                peer_merge::lemma_update_shaped(before, k as int, e);
            }
        },
    }
}

/// Taking an answer over keeps the topic counts of all slots within their arrays.
proof fn lemma_taken_over_counts(
    table: Seq<NodeView>,
    origin: u64,
    ns: Seq<NodeInfoView>,
    now: u64,
)
    requires
        linking::table_counts_fit(table),
    ensures
        linking::table_counts_fit(taken_over(table, origin, ns, now)),
{
    let why = Leaving::Unreported(peer_merge::node_ids(ns));
    let ids = leaving_ids(table, origin, why);
    let start = without_leaving(table, origin, why);
    assert forall|i: int|
        0 <= i < start.len() && ((#[trigger] start[i]).state == SlotState::Pending.spec_value()
            || start[i].state == SlotState::Active.spec_value()) implies start[i].counts_fit() by {
        peer_merge::lemma_without_nodes_len(vacated(table, origin, why), ids, false);
        peer_merge::lemma_without_nodes_fields(vacated(table, origin, why), ids, false, i);
        assert(vacated(table, origin, why)[i].state == start[i].state);
        assert(table[i].counts_fit());
    }
    lemma_placed_counts(start, ns, origin, now, ns.len() as int);
}

proof fn lemma_placed_counts(
    table: Seq<NodeView>,
    ns: Seq<NodeInfoView>,
    origin: u64,
    now: u64,
    count: int,
)
    requires
        linking::table_counts_fit(table),
    ensures
        linking::table_counts_fit(with_all_placed(table, ns, origin, now, count)),
        with_all_placed(table, ns, origin, now, count).len() == table.len(),
    decreases count,
{
    if count > 0 {
        lemma_placed_counts(table, ns, origin, now, count - 1);
        let prev = with_all_placed(table, ns, origin, now, count - 1);
        let n = ns[count - 1];
        let next = with_placed(prev, n, origin, now);
        discovery_shm::lemma_slot_of_node(window(prev), n.node_id);
        discovery_shm::lemma_first_in_state(window(prev), SlotState::Empty.spec_value());
        let dropped = match_list::drop_matches_everywhere(prev, seq![n.node_id], false, false);
        assert forall|i: int|
            0 <= i < next.len() && ((#[trigger] next[i]).state == SlotState::Pending.spec_value()
                || next[i].state == SlotState::Active.spec_value()) implies next[i].counts_fit() by {
            assert(dropped[i] == match_list::drop_matches(prev[i], seq![n.node_id], false, false));
            if prev[i].state == SlotState::Pending.spec_value() || prev[i].state
                == SlotState::Active.spec_value() {
                assert(prev[i].counts_fit());
            }
        }
    }
}

/// Takes over what daemon `origin` answered: its nodes that it did not report are
/// given up, those that it did report are placed, the table's generation steps, and
/// the matches are renewed.
pub fn apply_sync_response(
    shm: &mut ShmDiscovery,
    origin: u64,
    nodes: &[PeerNodeInfo],
    now_secs: u64,
)
    requires
        old(shm).wf(),
        linking::table_counts_fit(old(shm).table()),
    ensures
        final(shm).wf(),
        final(shm).header == (ShmHeader {
            generation: match_list::next_generation(old(shm).header.generation),
            ..old(shm).header
        }),
        final(shm).table() == linking::renewed(
            taken_over(old(shm).table(), origin, peer_sync::nodes_view(nodes@), now_secs),
        ),
{
    let ghost before = shm.table();
    let ghost ns = peer_sync::nodes_view(nodes@);
    let ids = ids_of(nodes);
    vacate(&mut shm.node_table, origin, Some(&ids));
    let ghost base = without_leaving(
        before,
        origin,
        Leaving::Unreported(peer_merge::node_ids(ns)),
    );
    let mut i: usize = 0;
    while i < nodes.len()
        invariant
            i <= nodes@.len(),
            shm.wf(),
            shm.header == old(shm).header,
            ns == peer_sync::nodes_view(nodes@),
            shm.table() == with_all_placed(base, ns, origin, now_secs, i as int),
        decreases nodes@.len() - i,
    {
        assert(ns[i as int] == nodes@[i as int]@);
        place_in_table(&mut shm.node_table, &nodes[i], origin, now_secs);
        i += 1;
    }
    shm.header.generation = shm.header.generation.wrapping_add(1);
    proof {
        lemma_taken_over_counts(before, origin, ns, now_secs);
    }
    process_topic_updates(shm);
}

/// Gives up every node that came from a daemon that fell silent.
pub fn remove_silent_daemon(shm: &mut ShmDiscovery, origin: u64)
    requires
        old(shm).wf(),
    ensures
        final(shm).wf(),
        final(shm).header == (ShmHeader {
            generation: match_list::next_generation(old(shm).header.generation),
            ..old(shm).header
        }),
        final(shm).table() == without_leaving(old(shm).table(), origin, Leaving::Silent),
{
    vacate(&mut shm.node_table, origin, None);
    shm.header.generation = shm.header.generation.wrapping_add(1);
}

/// After an answer is taken over, every node that the table has from the daemon is
/// one that the daemon reported.
pub proof fn law_answer_drops_unreported(
    table: Seq<NodeView>,
    origin: u64,
    ns: Seq<NodeInfoView>,
    now: u64,
    i: int,
)
    requires
        0 <= i < table.len(),
    ensures
        ({
            let e = taken_over(table, origin, ns, now)[i];
            e.state != SlotState::Empty.spec_value() && e.daemon_origin == origin
                ==> peer_merge::node_ids(ns).contains(e.node_id)
        }),
{
    let why = Leaving::Unreported(peer_merge::node_ids(ns));
    peer_merge::lemma_without_nodes_fields(
        vacated(table, origin, why),
        leaving_ids(table, origin, why),
        false,
        i,
    );
    lemma_placed_reported(without_leaving(table, origin, why), ns, origin, now, ns.len() as int, i);
}

proof fn lemma_placed_reported(
    table: Seq<NodeView>,
    ns: Seq<NodeInfoView>,
    origin: u64,
    now: u64,
    count: int,
    i: int,
)
    requires
        0 <= i < table.len(),
        count <= ns.len(),
        table[i].state != SlotState::Empty.spec_value() && table[i].daemon_origin == origin
            ==> peer_merge::node_ids(ns).contains(table[i].node_id),
    ensures
        ({
            let t = with_all_placed(table, ns, origin, now, count);
            &&& t.len() == table.len()
            &&& t[i].state != SlotState::Empty.spec_value() && t[i].daemon_origin == origin
                ==> peer_merge::node_ids(ns).contains(t[i].node_id)
        }),
    decreases count,
{
    if count > 0 {
        lemma_placed_reported(table, ns, origin, now, count - 1, i);
        let prev = with_all_placed(table, ns, origin, now, count - 1);
        discovery_shm::lemma_slot_of_node(window(prev), ns[count - 1].node_id);
        discovery_shm::lemma_first_in_state(window(prev), SlotState::Empty.spec_value());
        assert(peer_merge::node_ids(ns)[count - 1] == ns[count - 1].node_id);
    }
}

/// Once a daemon that fell silent is removed, no pending or active slot without a
/// process is left of it.
pub proof fn law_silent_daemon_leaves_no_node(table: Seq<NodeView>, origin: u64, i: int)
    requires
        0 <= i < table.len(),
    ensures
        !leaves(without_leaving(table, origin, Leaving::Silent)[i], origin, Leaving::Silent),
{
    peer_merge::lemma_without_nodes_fields(
        vacated(table, origin, Leaving::Silent),
        leaving_ids(table, origin, Leaving::Silent),
        false,
        i,
    );
}

/// A slot is given up exactly if it is of the daemon in question and the daemon does not
/// list its node any more; or, where the daemon fell silent, if its node is pending or
/// active and has no process here.
pub proof fn law_slots_given_up_exactly(e: NodeView, origin: u64, ids: Seq<u64>)
    ensures
        leaves(e, origin, Leaving::Unreported(ids)) <==> e.state != 0 && e.daemon_origin == origin
            && !ids.contains(e.node_id),
        leaves(e, origin, Leaving::Silent) <==> (e.state == 1 || e.state == 2) && e.daemon_origin
            == origin && e.pid == 0,
{
}

/// A slot that is given up holds no node: no number, no topics, no matches and no daemon.
pub proof fn law_retired_slot_is_empty(e: NodeView)
    requires
        e.shaped(),
    ensures
        retired(e).shaped(),
        retired(e).state == 0,
        retired(e).node_id == 0,
        retired(e).domain_id == 0,
        retired(e).daemon_origin == 0,
        retired(e).pid == 0,
        retired(e).pub_count == 0,
        retired(e).sub_count == 0,
        retired(e).match_count == 0,
        retired(e).quic_addr_count == 0,
        retired(e).last_seen_secs == 0,
{
}

/// The nodes that leave are exactly those of the slots that are given up.
pub proof fn law_leaving_exactly(table: Seq<NodeView>, origin: u64, why: Leaving, id: u64)
    ensures
        leaving_ids(table, origin, why).contains(id) <==> id != 0 && exists|i: int|
            0 <= i < table.len() && (#[trigger] table[i]).node_id == id && leaves(
                table[i],
                origin,
                why,
            ),
    decreases table.len(),
{
    if table.len() > 0 {
        let init = table.drop_last();
        let rest = leaving_ids(init, origin, why);
        let all = leaving_ids(table, origin, why);
        law_leaving_exactly(init, origin, why, id);
        if all.contains(id) {
            let k = choose|k: int| 0 <= k < all.len() && all[k] == id;
            if k < rest.len() {
                assert(rest[k] == id);
                let i = choose|i: int|
                    0 <= i < init.len() && (#[trigger] init[i]).node_id == id && leaves(
                        init[i],
                        origin,
                        why,
                    );
                assert(table[i] == init[i]);
            } else {
                assert(table[table.len() - 1].node_id == id);
            }
        }
        if id != 0 && exists|i: int|
            0 <= i < table.len() && (#[trigger] table[i]).node_id == id && leaves(
                table[i],
                origin,
                why,
            ) {
            let i = choose|i: int|
                0 <= i < table.len() && (#[trigger] table[i]).node_id == id && leaves(
                    table[i],
                    origin,
                    why,
                );
            if i < table.len() - 1 {
                assert(init[i] == table[i]);
                let k = choose|k: int| 0 <= k < rest.len() && rest[k] == id;
                assert(all[k] == id);
            } else {
                assert(all[rest.len() as int] == id);
            }
        }
    }
}

/// A daemon that fell silent takes its own nodes with it, and no active slot counts a
/// match of them any more; nodes of this host and of other daemons keep their slots, and
/// all their other matches.
pub proof fn law_silence_concerns_one_daemon(
    table: Seq<NodeView>,
    origin: u64,
    i: int,
    m: discovery_shm::MatchEntry,
)
    requires
        0 <= i < table.len(),
        table[i].shaped(),
        table[i].match_count <= 1024,
    ensures
        ({
            let after = without_leaving(table, origin, Leaving::Silent)[i];
            let had = table[i].remote_matches.subrange(0, table[i].match_count as int);
            let has = after.remote_matches.subrange(0, after.match_count as int);
            &&& table[i].daemon_origin == origin && table[i].pid == 0 && (table[i].state == 1
                || table[i].state == 2) ==> after.state == 0 && after.node_id == 0
                && after.match_count == 0
            &&& table[i].daemon_origin != origin || table[i].pid != 0 ==> after == (NodeView {
                remote_matches: after.remote_matches,
                match_count: after.match_count,
                response_gen: after.response_gen,
                ..table[i]
            })
            &&& (table[i].daemon_origin != origin || table[i].pid != 0) && table[i].state == 2 ==> (
            has.contains(m) <==> had.contains(m) && !(m.node_id != 0 && exists|j: int|
                0 <= j < table.len() && (#[trigger] table[j]).node_id == m.node_id && (
                table[j].state == 1 || table[j].state == 2) && table[j].daemon_origin == origin
                    && table[j].pid == 0))
        }),
{
    let v = vacated(table, origin, Leaving::Silent);
    let ids = leaving_ids(table, origin, Leaving::Silent);
    law_leaving_exactly(table, origin, Leaving::Silent, m.node_id);
    match_list::law_nodes_are_dropped_exactly(v, ids, false, i, m);
}

/// A node of an answer is in its slot with all that was reported of it, under its daemon
/// and as of now. A slot that held another node before starts without matches.
pub proof fn law_placed_node_keeps_its_fields(
    e: NodeView,
    n: NodeInfoView,
    origin: u64,
    now: u64,
    fresh: bool,
    k: int,
)
    requires
        e.shaped(),
        n.published_topics.len() <= 256,
        n.subscribed_topics.len() <= 256,
        n.quic_addrs.len() <= 8,
    ensures
        ({
            let s = placed(e, n, origin, now, fresh);
            &&& s.shaped()
            &&& s.state == 2
            &&& s.node_id == n.node_id
            &&& s.domain_id == n.domain_id
            &&& s.pid == 0
            &&& s.quic_port == n.quic_port
            &&& s.daemon_origin == origin
            &&& s.last_seen_secs == now
            &&& s.pub_count == n.published_topics.len()
            &&& s.sub_count == n.subscribed_topics.len()
            &&& s.quic_addr_count == n.quic_addrs.len()
            &&& fresh ==> s.match_count == 0 && s.response_gen == 0
            &&& !fresh ==> s.match_count == e.match_count && s.response_gen == e.response_gen
            &&& s.remote_matches == e.remote_matches
            &&& 0 <= k < n.quic_addrs.len() ==> s.quic_addrs[k] == n.quic_addrs[k]
            &&& 0 <= k < n.published_topics.len() ==> s.published_topics[k].hash
                == n.published_topics[k].hash && s.published_topics[k].qos_reliability
                == n.published_topics[k].qos_reliability
            &&& 0 <= k < n.subscribed_topics.len() ==> s.subscribed_topics[k].hash
                == n.subscribed_topics[k].hash && s.subscribed_topics[k].qos_reliability
                == n.subscribed_topics[k].qos_reliability
        }),
{
}

/// A node that was placed in a slot is reported as it came, where its topics, addresses
/// and names fit.
pub proof fn law_placed_node_is_reported_back(
    e: NodeView,
    n: NodeInfoView,
    origin: u64,
    now: u64,
    fresh: bool,
)
    requires
        e.shaped(),
        n.published_topics.len() <= 256,
        n.subscribed_topics.len() <= 256,
        n.quic_addrs.len() <= 8,
        peer_merge::fits_field(n.node_name),
        peer_merge::fits_field(n.node_namespace),
        forall|k: int|
            0 <= k < n.published_topics.len() ==> peer_merge::fits_entry(
                #[trigger] n.published_topics[k],
            ),
        forall|k: int|
            0 <= k < n.subscribed_topics.len() ==> peer_merge::fits_entry(
                #[trigger] n.subscribed_topics[k],
            ),
    ensures
        ({
            let s = placed(e, n, origin, now, fresh);
            peer_merge::reported_node(
                s,
                peer_merge::field_text(s.node_name, Seq::empty()),
                peer_merge::field_text(s.node_namespace, "/"@),
            ) == n
        }),
{
    let s = placed(e, n, origin, now, fresh);
    peer_merge::law_name_is_read_back(n.node_name, Seq::empty());
    peer_merge::law_name_is_read_back(n.node_namespace, "/"@);
    let r = peer_merge::reported_node(s, n.node_name, n.node_namespace);
    assert forall|k: int| 0 <= k < n.published_topics.len() implies r.published_topics[k]
        == n.published_topics[k] by {
        assert(s.pubs()[k] == peer_merge::entry_of_topic(n.published_topics[k]));
        peer_merge::law_stored_topic_is_reported_back(
            n.published_topics[k],
            n.node_name,
            n.node_namespace,
        );
    }
    assert forall|k: int| 0 <= k < n.subscribed_topics.len() implies r.subscribed_topics[k]
        == n.subscribed_topics[k] by {
        assert(s.subs()[k] == peer_merge::entry_of_topic(n.subscribed_topics[k]));
        peer_merge::law_stored_topic_is_reported_back(
            n.subscribed_topics[k],
            n.node_name,
            n.node_namespace,
        );
    }
    assert(r.published_topics =~= n.published_topics);
    assert(r.subscribed_topics =~= n.subscribed_topics);
    assert(r.quic_addrs =~= n.quic_addrs);
}

proof fn lemma_placed_leave(
    table: Seq<NodeView>,
    ns: Seq<NodeInfoView>,
    origin: u64,
    now: u64,
    count: int,
    i: int,
)
    requires
        0 <= i < table.len(),
        0 <= count <= ns.len(),
        table[i].state != 0,
        forall|j: int| 0 <= j < ns.len() ==> (#[trigger] ns[j]).node_id != table[i].node_id,
    ensures
        ({
            let t = with_all_placed(table, ns, origin, now, count);
            &&& t.len() == table.len()
            &&& t[i] == (NodeView {
                remote_matches: t[i].remote_matches,
                match_count: t[i].match_count,
                response_gen: t[i].response_gen,
                ..table[i]
            })
        }),
    decreases count,
{
    if count > 0 {
        lemma_placed_leave(table, ns, origin, now, count - 1, i);
        let prev = with_all_placed(table, ns, origin, now, count - 1);
        assert(ns[count - 1].node_id != table[i].node_id);
        discovery_shm::lemma_slot_of_node(window(prev), ns[count - 1].node_id);
        discovery_shm::lemma_first_in_state(window(prev), SlotState::Empty.spec_value());
    }
}

/// An answer is about the nodes of its daemon: a slot of this host or of another daemon
/// whose node it does not list keeps all but its matches.
pub proof fn law_answer_leaves_other_nodes(
    table: Seq<NodeView>,
    origin: u64,
    ns: Seq<NodeInfoView>,
    now: u64,
    i: int,
)
    requires
        0 <= i < table.len(),
        table[i].state != 0,
        table[i].daemon_origin != origin,
        forall|j: int| 0 <= j < ns.len() ==> (#[trigger] ns[j]).node_id != table[i].node_id,
    ensures
        ({
            let e = taken_over(table, origin, ns, now)[i];
            e == (NodeView {
                remote_matches: e.remote_matches,
                match_count: e.match_count,
                response_gen: e.response_gen,
                ..table[i]
            })
        }),
{
    let why = Leaving::Unreported(peer_merge::node_ids(ns));
    let v = vacated(table, origin, why);
    peer_merge::lemma_without_nodes_fields(v, leaving_ids(table, origin, why), false, i);
    lemma_placed_leave(without_leaving(table, origin, why), ns, origin, now, ns.len() as int, i);
}

/// A node of an answer is placed in the first of the first 256 slots that is used and
/// holds it; else in the first of them that is unused; else nowhere. Where it is placed
/// the slot is active, holds the node, and names the daemon that answered.
pub proof fn law_node_of_an_answer_is_placed(
    table: Seq<NodeView>,
    n: NodeInfoView,
    origin: u64,
    now: u64,
    k: int,
)
    requires
        0 <= k < table.len(),
        k < 256,
    ensures
        ({
            let after = with_placed(table, n, origin, now);
            let holds = table[k].state != 0 && table[k].node_id == n.node_id && forall|j: int|
                0 <= j < k ==> (#[trigger] table[j]).state == 0 || table[j].node_id != n.node_id;
            let nowhere = forall|j: int|
                0 <= j < table.len() && j < 256 ==> (#[trigger] table[j]).state == 0
                    || table[j].node_id != n.node_id;
            let free = table[k].state == 0 && forall|j: int|
                0 <= j < k ==> (#[trigger] table[j]).state != 0;
            &&& after.len() == table.len()
            &&& holds || (nowhere && free) ==> after[k].state == 2 && after[k].node_id == n.node_id
                && after[k].daemon_origin == origin && after[k].last_seen_secs == now
            &&& nowhere && free ==> after[k].match_count == 0 && forall|j: int|
                0 <= j < table.len() && j != k ==> (#[trigger] after[j]) == table[j]
            &&& nowhere && (forall|j: int|
                0 <= j < table.len() && j < 256 ==> (#[trigger] table[j]).state != 0) ==> after
                == table
        }),
{
    let w = window(table);
    discovery_shm::lemma_slot_of_node(w, n.node_id);
    discovery_shm::lemma_first_in_state(w, 0);
    assert forall|j: int| 0 <= j < w.len() implies #[trigger] w[j] == table[j] by {}
    let after = with_placed(table, n, origin, now);
    if let Some(i) = discovery_shm::slot_of_node(w, n.node_id) {
        assert(table[i] == w[i]);
        if i < k {
            assert(table[i].state != 0 && table[i].node_id == n.node_id);
        }
        if k < i {
            assert(w[k] == table[k]);
        }
    } else {
        assert(w[k] == table[k]);
        if let Some(i) = discovery_shm::first_in_state(w, 0) {
            assert(table[i] == w[i]);
            if i < k {
                assert(table[i].state == 0);
            }
            if k < i {
                assert(w[k] == table[k]);
            }
        }
    }
}

/// A node that is reported as it was keeps its matches, and no other slot changes. One
/// whose endpoint or topics changed is dropped from the matches of every active slot.
pub proof fn law_changed_node_loses_its_matches(
    table: Seq<NodeView>,
    n: NodeInfoView,
    origin: u64,
    now: u64,
    k: int,
    j: int,
    m: discovery_shm::MatchEntry,
)
    requires
        0 <= k < table.len(),
        k < 256,
        table[k].state != 0,
        table[k].node_id == n.node_id,
        forall|i: int| 0 <= i < k ==> (#[trigger] table[i]).state == 0 || table[i].node_id
            != n.node_id,
        0 <= j < table.len(),
        j != k,
        table[j].shaped(),
        table[j].match_count <= 1024,
    ensures
        ({
            let after = with_placed(table, n, origin, now);
            let had = table[j].remote_matches.subrange(0, table[j].match_count as int);
            let has = after[j].remote_matches.subrange(0, after[j].match_count as int);
            &&& peer_merge::same_endpoints(table[k], n) ==> after[j] == table[j]
                && after[k].match_count == table[k].match_count && after[k].remote_matches
                == table[k].remote_matches
            &&& !peer_merge::same_endpoints(table[k], n) && table[j].state == 2 ==> (has.contains(m)
                <==> had.contains(m) && m.node_id != n.node_id)
            &&& after[j].state == table[j].state && after[j].node_id == table[j].node_id
                && after[j].domain_id == table[j].domain_id
        }),
{
    let w = window(table);
    discovery_shm::lemma_slot_of_node(w, n.node_id);
    assert forall|i: int| 0 <= i < w.len() implies #[trigger] w[i] == table[i] by {}
    let i = discovery_shm::slot_of_node(w, n.node_id)->0;
    assert(w[k] == table[k]);
    if i < k {
        assert(table[i] == w[i]);
    }
    assert(i == k);
    let ids = seq![n.node_id];
    match_list::law_dropped_exactly(table[j], ids, false, false, m);
    assert(ids.contains(m.node_id) <==> m.node_id == n.node_id) by {
        if m.node_id == n.node_id {
            assert(ids[0] == m.node_id);
        }
    }
}

} // verus!
