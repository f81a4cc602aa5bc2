//! How the daemon notices that a node is gone, and what it clears then.
use vstd::prelude::*;

use crate::daemon::discovery_shm;
use crate::daemon::discovery_shm::{
    blank_matches, blank_topics, NodeTableEntry, NodeView, ShmDiscovery, ShmHeader, SlotState,
    MAX_MATCHES, MAX_TOPICS_PER_NODE,
};
use crate::daemon::match_list;
use crate::daemon::match_list::remove_matches_for_nodes;
use crate::text::push_decimal;
#[allow(unused_imports)]
use crate::text;

verus! {

/// Seconds after which a registration that was never completed is dropped.
pub const PENDING_TIMEOUT_SECS: u64 = 2;

/// Seconds of silence after which a node of this host is dropped.
pub const LOCAL_TIMEOUT_SECS: u64 = 10;

/// Seconds of silence after which a node of another daemon is dropped.
pub const REMOTE_TIMEOUT_SECS: u64 = 30;

/// Whether more than `limit` seconds passed since a slot was seen. A slot that was
/// never seen is not silent.
pub open spec fn silent(e: NodeView, now: u64, limit: u64) -> bool {
    e.last_seen_secs > 0 && now - e.last_seen_secs > limit
}

/// Whether the slot's node is gone: it said so, it never completed its registration,
/// its process died, or it has been silent for too long.
pub open spec fn departs(e: NodeView, now: u64, process_alive: bool) -> bool {
    ||| e.state == SlotState::Leaving.spec_value()
    ||| (e.state == SlotState::Pending.spec_value() && silent(e, now, PENDING_TIMEOUT_SECS))
    ||| (e.state == SlotState::Active.spec_value() && e.pid > 0 && !process_alive)
    ||| (e.state == SlotState::Active.spec_value() && e.pid == 0 && e.daemon_origin != 0 && silent(
        e,
        now,
        REMOTE_TIMEOUT_SECS,
    ))
    ||| (e.state == SlotState::Active.spec_value() && e.pid == 0 && e.daemon_origin == 0
        && e.node_id != 0 && silent(e, now, LOCAL_TIMEOUT_SECS))
}

/// What is left of a slot whose node departed: its endpoint only.
pub open spec fn departed_slot(e: NodeView) -> NodeView {
    NodeView { quic_port: e.quic_port, quic_addrs: e.quic_addrs, ..discovery_shm::blank_node() }
}

/// A slot after the check: cleared where its node departed, and just seen where its
/// process was found alive.
pub open spec fn checked_slot(e: NodeView, now: u64, process_alive: bool) -> NodeView {
    if departs(e, now, process_alive) {
        departed_slot(e)
    } else if e.state == SlotState::Active.spec_value() && e.pid > 0 {
        NodeView { last_seen_secs: now, ..e }
    } else {
        e
    }
}

/// The table after the check.
pub open spec fn checked_table(table: Seq<NodeView>, now: u64, alive: Seq<bool>) -> Seq<NodeView> {
    Seq::new(table.len(), |i: int| checked_slot(table[i], now, alive[i]))
}

/// The nodes that departed, in table order.
pub open spec fn departed_ids(table: Seq<NodeView>, now: u64, alive: Seq<bool>) -> Seq<u64>
    decreases table.len(),
{
    if table.len() == 0 {
        Seq::empty()
    } else {
        let rest = departed_ids(table.drop_last(), now, alive);
        let last = table.last();
        if departs(last, now, alive[table.len() - 1]) && last.node_id != 0 {
            rest.push(last.node_id)
        } else {
            rest
        }
    }
}

/// Whether a slot's node departed.
pub open spec fn any_departs(table: Seq<NodeView>, now: u64, alive: Seq<bool>) -> bool {
    exists|i: int| 0 <= i < table.len() && departs(#[trigger] table[i], now, alive[i])
}

/// Whether a node of this host uses the channel of a topic in a domain.
pub open spec fn slot_has_channel(e: NodeView, domain_id: u32, hash: u64) -> bool {
    let pubs = if e.pub_count <= e.published_topics.len() {
        e.pubs()
    } else {
        e.published_topics
    };
    let subs = if e.sub_count <= e.subscribed_topics.len() {
        e.subs()
    } else {
        e.subscribed_topics
    };
    &&& e.state != SlotState::Empty.spec_value()
    &&& e.daemon_origin == 0
    &&& e.domain_id == domain_id
    &&& hash != 0
    &&& (discovery_shm::has_hash(pubs, hash) || discovery_shm::has_hash(subs, hash))
}

/// Whether some node of this host uses the channel of a topic in a domain.
pub open spec fn has_channel(table: Seq<NodeView>, domain_id: u32, hash: u64) -> bool {
    exists|i: int|
        0 <= i < table.len() && slot_has_channel(#[trigger] table[i], domain_id, hash)
}

/// What the check found: whether anything changed, and the channels that no node of
/// this host uses any more.
pub struct Departures {
    pub changed: bool,
    pub closed_channels: Vec<(u32, u64)>,
}

/// Whether the list holds the channel.
fn channel_listed(channels: &[(u32, u64)], domain_id: u32, hash: u64) -> (r: bool)
    ensures
        r == channels@.contains((domain_id, hash)),
{
    let mut i: usize = 0;
    while i < channels.len()
        invariant
            i <= channels@.len(),
            forall|k: int| 0 <= k < i ==> channels@[k] != (domain_id, hash),
        decreases channels@.len() - i,
    {
        if channels[i].0 == domain_id && channels[i].1 == hash {
            proof {
                assert(channels@[i as int] == (domain_id, hash));
            }
            return true;
        }
        i += 1;
    }
    false
}

/// Adds a channel that is not listed yet.
fn list_channel(channels: &mut Vec<(u32, u64)>, domain_id: u32, hash: u64)
    requires
        old(channels)@.no_duplicates(),
    ensures
        final(channels)@.no_duplicates(),
        forall|c: (u32, u64)|
            #[trigger] final(channels)@.contains(c) <==> old(channels)@.contains(c) || c == (
                domain_id,
                hash,
            ),
{
    let ghost before = channels@;
    if !channel_listed(channels, domain_id, hash) {
        channels.push((domain_id, hash));
        proof {
            assert forall|c: (u32, u64)| #[trigger]
                channels@.contains(c) <==> before.contains(c) || c == (domain_id, hash) by {
                if before.contains(c) {
                    let k = choose|k: int| 0 <= k < before.len() && before[k] == c;
                    assert(channels@[k] == c);
                }
                assert(channels@[before.len() as int] == (domain_id, hash));
                if channels@.contains(c) {
                    let k = choose|k: int| 0 <= k < channels@.len() && channels@[k] == c;
                    if k < before.len() {
                        assert(before[k] == c);
                    }
                }
            }
        }
    }
}

/// The channels that the nodes of this host use, each once.
pub fn local_channels(table: &[NodeTableEntry]) -> (r: Vec<(u32, u64)>)
    ensures
        r@.no_duplicates(),
        forall|d: u32, h: u64|
            #[trigger] r@.contains((d, h)) <==> has_channel(
                discovery_shm::table_view(table@),
                d,
                h,
            ),
{
    let ghost view = discovery_shm::table_view(table@);
    let mut channels: Vec<(u32, u64)> = Vec::new();
    let mut i: usize = 0;
    while i < table.len()
        invariant
            i <= table@.len(),
            view == discovery_shm::table_view(table@),
            channels@.no_duplicates(),
            forall|d: u32, h: u64|
                #[trigger] channels@.contains((d, h)) <==> has_channel(
                    view.subrange(0, i as int),
                    d,
                    h,
                ),
        decreases table@.len() - i,
    {
        let ghost before = channels@;
        list_slot_channels(&mut channels, &table[i]);
        proof {
            let shorter = view.subrange(0, i as int);
            let longer = view.subrange(0, i + 1);
            assert forall|d: u32, h: u64| #[trigger]
                channels@.contains((d, h)) <==> has_channel(longer, d, h) by {
                assert(longer[i as int] == table@[i as int]@);
                if has_channel(shorter, d, h) {
                    let k = choose|k: int|
                        0 <= k < shorter.len() && slot_has_channel(#[trigger] shorter[k], d, h);
                    assert(longer[k] == shorter[k]);
                }
                if has_channel(longer, d, h) {
                    let k = choose|k: int|
                        0 <= k < longer.len() && slot_has_channel(#[trigger] longer[k], d, h);
                    if k < i {
                        assert(shorter[k] == longer[k]);
                    }
                }
                assert(before.contains((d, h)) <==> has_channel(shorter, d, h));
            }
        }
        i += 1;
    }
    proof {
        assert(view.subrange(0, i as int) =~= view);
    }
    channels
}

/// Adds the channels of one slot that are not listed yet.
fn list_slot_channels(channels: &mut Vec<(u32, u64)>, entry: &NodeTableEntry)
    requires
        old(channels)@.no_duplicates(),
    ensures
        final(channels)@.no_duplicates(),
        forall|d: u32, h: u64|
            #[trigger] final(channels)@.contains((d, h)) <==> old(channels)@.contains((d, h))
                || slot_has_channel(entry@, d, h),
{
    let ghost before = channels@;
    if entry.state == SlotState::Empty.value() || entry.daemon_origin != 0 {
        return;
    }
    let pub_len: usize = if entry.pub_count as usize <= entry.published_topics.len() {
        entry.pub_count as usize
    } else {
        entry.published_topics.len()
    };
    let sub_len: usize = if entry.sub_count as usize <= entry.subscribed_topics.len() {
        entry.sub_count as usize
    } else {
        entry.subscribed_topics.len()
    };
    list_topic_channels(channels, entry.domain_id, &entry.published_topics, pub_len);
    let ghost mid = channels@;
    list_topic_channels(channels, entry.domain_id, &entry.subscribed_topics, sub_len);
    proof {
        let pubs = entry@.published_topics.subrange(0, pub_len as int);
        let subs = entry@.subscribed_topics.subrange(0, sub_len as int);
        assert(pub_len == entry.published_topics@.len() ==> pubs =~= entry@.published_topics);
        assert(sub_len == entry.subscribed_topics@.len() ==> subs =~= entry@.subscribed_topics);
        assert forall|d: u32, h: u64| #[trigger]
            channels@.contains((d, h)) <==> before.contains((d, h)) || slot_has_channel(
                entry@,
                d,
                h,
            ) by {
            assert(mid.contains((d, h)) <==> before.contains((d, h)) || (d == entry.domain_id && h
                != 0 && discovery_shm::has_hash(pubs, h)));
        }
    }
}

/// Adds the channels of the first `len` topics that are not listed yet.
fn list_topic_channels(
    channels: &mut Vec<(u32, u64)>,
    domain_id: u32,
    topics: &Vec<discovery_shm::TopicEntry>,
    len: usize,
)
    requires
        old(channels)@.no_duplicates(),
        len <= topics@.len(),
    ensures
        final(channels)@.no_duplicates(),
        forall|d: u32, h: u64|
            #[trigger] final(channels)@.contains((d, h)) <==> old(channels)@.contains((d, h)) || (d
                == domain_id && h != 0 && discovery_shm::has_hash(
                discovery_shm::topics_view(topics@).subrange(0, len as int),
                h,
            )),
{
    let ghost before = channels@;
    let ghost view = discovery_shm::topics_view(topics@);
    let mut k: usize = 0;
    while k < len
        invariant
            k <= len <= topics@.len(),
            view == discovery_shm::topics_view(topics@),
            channels@.no_duplicates(),
            forall|d: u32, h: u64|
                #[trigger] channels@.contains((d, h)) <==> before.contains((d, h)) || (d
                    == domain_id && h != 0 && discovery_shm::has_hash(
                    view.subrange(0, k as int),
                    h,
                )),
        decreases len - k,
    {
        let hash: u64 = topics[k].hash;
        let ghost prior = channels@;
        if hash != 0 {
            list_channel(channels, domain_id, hash);
        }
        proof {
            let shorter = view.subrange(0, k as int);
            let longer = view.subrange(0, k + 1);
            assert forall|d: u32, h: u64| #[trigger]
                channels@.contains((d, h)) <==> before.contains((d, h)) || (d == domain_id && h != 0
                    && discovery_shm::has_hash(longer, h)) by {
                assert(longer[k as int].hash == hash);
                if discovery_shm::has_hash(shorter, h) {
                    let j = choose|j: int|
                        0 <= j < shorter.len() && (#[trigger] shorter[j]).hash == h;
                    assert(longer[j].hash == h);
                }
                if discovery_shm::has_hash(longer, h) {
                    let j = choose|j: int|
                        0 <= j < longer.len() && (#[trigger] longer[j]).hash == h;
                    if j < k {
                        assert(shorter[j].hash == h);
                    }
                }
                assert(prior.contains((d, h)) <==> before.contains((d, h)) || (d == domain_id && h
                    != 0 && discovery_shm::has_hash(shorter, h)));
            }
        }
        k += 1;
    }
}

/// The channels of `before` that `after` does not list.
fn closed_channels(before: &[(u32, u64)], after: &[(u32, u64)]) -> (r: Vec<(u32, u64)>)
    requires
        before@.no_duplicates(),
    ensures
        r@.no_duplicates(),
        forall|c: (u32, u64)|
            #[trigger] r@.contains(c) <==> before@.contains(c) && !after@.contains(c),
{
    let mut r: Vec<(u32, u64)> = Vec::new();
    let mut i: usize = 0;
    while i < before.len()
        invariant
            i <= before@.len(),
            r@.no_duplicates(),
            forall|c: (u32, u64)|
                #[trigger] r@.contains(c) <==> before@.subrange(0, i as int).contains(c)
                    && !after@.contains(c),
        decreases before@.len() - i,
    {
        let c: (u32, u64) = before[i];
        let ghost prior = r@;
        if !channel_listed(after, c.0, c.1) {
            list_channel(&mut r, c.0, c.1);
        }
        proof {
            let shorter = before@.subrange(0, i as int);
            let longer = before@.subrange(0, i + 1);
            assert forall|x: (u32, u64)| #[trigger]
                r@.contains(x) <==> longer.contains(x) && !after@.contains(x) by {
                assert(longer[i as int] == c);
                if shorter.contains(x) {
                    let j = choose|j: int| 0 <= j < shorter.len() && shorter[j] == x;
                    assert(longer[j] == x);
                }
                if longer.contains(x) {
                    let j = choose|j: int| 0 <= j < longer.len() && longer[j] == x;
                    if j < i {
                        assert(shorter[j] == x);
                    }
                }
                assert(prior.contains(x) <==> shorter.contains(x) && !after@.contains(x));
            }
        }
        i += 1;
    }
    proof {
        assert(before@.subrange(0, i as int) =~= before@);
    }
    r
}

/// Clears a slot whose node departed.
pub fn clear_departed(entry: &mut NodeTableEntry)
    ensures
        final(entry)@ == departed_slot(old(entry)@),
{
    entry.state = SlotState::Empty.value();
    entry.node_id = 0;
    entry.domain_id = 0;
    entry.pub_count = 0;
    entry.sub_count = 0;
    entry.match_count = 0;
    entry.pid = 0;
    entry.proc_starttime = 0;
    entry.daemon_origin = 0;
    entry.last_seen_secs = 0;
    entry.quic_addr_count = 0;
    entry.response_gen = 0;
    entry.node_name = [0u8; 128];
    entry.node_namespace = [0u8; 128];
    entry.published_topics = blank_topics(MAX_TOPICS_PER_NODE);
    entry.subscribed_topics = blank_topics(MAX_TOPICS_PER_NODE);
    entry.remote_matches = blank_matches(MAX_MATCHES);
    proof {
        assert(entry@ =~= departed_slot(old(entry)@));
    }
}

/// Whether more than `limit` seconds passed since a slot was seen.
fn is_silent(entry: &NodeTableEntry, now: u64, limit: u64) -> (r: bool)
    ensures
        r == silent(entry@, now, limit),
{
    entry.last_seen_secs > 0 && now.saturating_sub(entry.last_seen_secs) > limit
}

/// Checks one slot: clears it where its node departed, and says so.
fn check_slot(entry: &mut NodeTableEntry, now: u64, process_alive: bool) -> (r: bool)
    ensures
        final(entry)@ == checked_slot(old(entry)@, now, process_alive),
        r == departs(old(entry)@, now, process_alive),
{
    let state: u8 = entry.state;
    let gone = if state == SlotState::Leaving.value() {
        true
    } else if state == SlotState::Pending.value() {
        is_silent(entry, now, PENDING_TIMEOUT_SECS)
    } else if state != SlotState::Active.value() {
        false
    } else if entry.pid > 0 {
        !process_alive
    } else if entry.daemon_origin != 0 {
        is_silent(entry, now, REMOTE_TIMEOUT_SECS)
    } else {
        entry.node_id != 0 && is_silent(entry, now, LOCAL_TIMEOUT_SECS)
    };
    if gone {
        clear_departed(entry);
    } else if state == SlotState::Active.value() && entry.pid > 0 {
        entry.last_seen_secs = now;
        proof {
            assert(entry@ =~= checked_slot(old(entry)@, now, process_alive));
        }
    }
    gone
}

/// Drops every node that is gone, with its matches in the other slots.
///
/// `process_alive` says of each slot whether its process was found alive.
pub fn process_departed_nodes(shm: &mut ShmDiscovery, now_secs: u64, process_alive: &[bool]) -> (r:
    Departures)
    requires
        old(shm).wf(),
        process_alive@.len() == old(shm).node_table@.len(),
    ensures
        final(shm).wf(),
        final(shm).table() == match_list::without_nodes(
            checked_table(old(shm).table(), now_secs, process_alive@),
            departed_ids(old(shm).table(), now_secs, process_alive@),
            false,
        ),
        r.changed == any_departs(old(shm).table(), now_secs, process_alive@),
        final(shm).header == (ShmHeader {
            generation: if r.changed {
                match_list::next_generation(old(shm).header.generation)
            } else {
                old(shm).header.generation
            },
            ..old(shm).header
        }),
        r.closed_channels@.no_duplicates(),
        forall|d: u32, h: u64|
            #[trigger] r.closed_channels@.contains((d, h)) <==> r.changed && has_channel(
                old(shm).table(),
                d,
                h,
            ) && !has_channel(final(shm).table(), d, h),
{
    let ghost before = shm.table();
    let channels_before = local_channels(&shm.node_table);
    let mut cleared: Vec<u64> = Vec::new();
    let mut changed = false;
    let mut i: usize = 0;
    proof {
        assert(before.subrange(0, 0) =~= Seq::empty());
    }
    while i < shm.node_table.len()
        invariant
            i <= shm.node_table@.len(),
            shm.node_table@.len() == before.len() == process_alive@.len(),
            shm.header == old(shm).header,
            discovery_shm::table_shaped(before),
            forall|k: int|
                0 <= k < i ==> (#[trigger] shm.node_table@[k])@ == checked_slot(
                    before[k],
                    now_secs,
                    process_alive@[k],
                ),
            forall|k: int| i <= k < before.len() ==> (#[trigger] shm.node_table@[k])@ == before[k],
            cleared@ == departed_ids(before.subrange(0, i as int), now_secs, process_alive@),
            changed == any_departs(before.subrange(0, i as int), now_secs, process_alive@),
        decreases shm.node_table@.len() - i,
    {
        let ghost prior = shm.node_table@;
        let node_id: u64 = shm.node_table[i].node_id;
        let gone = check_slot(&mut shm.node_table[i], now_secs, process_alive[i]);
        proof {
            let shorter = before.subrange(0, i as int);
            let longer = before.subrange(0, i + 1);
            assert(longer.drop_last() =~= shorter);
            assert(longer.last() == before[i as int]);
            assert(prior[i as int]@ == before[i as int]);
            assert forall|k: int| 0 <= k < i implies (#[trigger] shm.node_table@[k]) == prior[k] by {}
            assert(longer[i as int] == before[i as int]);
            if any_departs(shorter, now_secs, process_alive@) {
                let k = choose|k: int|
                    0 <= k < shorter.len() && departs(
                        #[trigger] shorter[k],
                        now_secs,
                        process_alive@[k],
                    );
                assert(departs(longer[k], now_secs, process_alive@[k]));
            }
            if any_departs(longer, now_secs, process_alive@) {
                let k = choose|k: int|
                    0 <= k < longer.len() && departs(
                        #[trigger] longer[k],
                        now_secs,
                        process_alive@[k],
                    );
                if k < i {
                    assert(departs(shorter[k], now_secs, process_alive@[k]));
                }
            }
        }
        if gone {
            if node_id != 0 {
                cleared.push(node_id);
            }
            changed = true;
        }
        i += 1;
    }
    proof {
        assert(before.subrange(0, i as int) =~= before);
        assert(shm.table() =~= checked_table(before, now_secs, process_alive@));
        assert forall|k: int| 0 <= k < shm.table().len() implies (
        #[trigger] shm.table()[k]).shaped() by {
            assert(shm.node_table@[k]@ == checked_slot(before[k], now_secs, process_alive@[k]));
            assert(before[k].shaped());
        }
    }
    remove_matches_for_nodes(&mut shm.node_table, &cleared, false);
    if changed {
        let channels_after = local_channels(&shm.node_table);
        let closed = closed_channels(&channels_before, &channels_after);
        shm.header.generation = shm.header.generation.wrapping_add(1);
        Departures { changed, closed_channels: closed }
    } else {
        Departures { changed, closed_channels: Vec::new() }
    }
}

/// The name of the shared segment of a topic's channel in a domain.
pub fn channel_segment_name(domain_id: u32, topic_hash: u64) -> (r: String)
    ensures
        r@ == "/axon_domain_"@ + text::decimal(domain_id as nat) + "_topic_"@ + text::decimal(
            topic_hash as nat,
        ),
{
    let mut s = "/axon_domain_".to_owned();
    push_decimal(&mut s, domain_id as u64);
    s.append("_topic_");
    push_decimal(&mut s, topic_hash);
    s
}

/// The domains, each once and in table order, in which this host has nodes that are
/// not leaving.
pub open spec fn domains_in_use(table: Seq<NodeView>) -> Seq<u32>
    decreases table.len(),
{
    if table.len() == 0 {
        Seq::empty()
    } else {
        let rest = domains_in_use(table.drop_last());
        let last = table.last();
        if last.state != SlotState::Empty.spec_value() && last.state
            != SlotState::Leaving.spec_value() && last.daemon_origin == 0 && !rest.contains(
            last.domain_id,
        ) {
            rest.push(last.domain_id)
        } else {
            rest
        }
    }
}

/// The domains in which this host has nodes that are not leaving.
pub fn active_domains(shm: &ShmDiscovery) -> (r: Vec<u32>)
    ensures
        r@ == domains_in_use(shm.table()),
{
    let ghost view = shm.table();
    let mut domains: Vec<u32> = Vec::new();
    let mut i: usize = 0;
    proof {
        assert(view.subrange(0, 0) =~= Seq::empty());
    }
    while i < shm.node_table.len()
        invariant
            i <= shm.node_table@.len(),
            view == shm.table(),
            domains@ == domains_in_use(view.subrange(0, i as int)),
        decreases shm.node_table@.len() - i,
    {
        proof {
            assert(view.subrange(0, i + 1).drop_last() =~= view.subrange(0, i as int));
            assert(view.subrange(0, i + 1).last() == shm.node_table@[i as int]@);
        }
        let entry = &shm.node_table[i];
        if entry.state != SlotState::Empty.value() && entry.state != SlotState::Leaving.value()
            && entry.daemon_origin == 0 && !domain_listed(&domains, entry.domain_id) {
            domains.push(entry.domain_id);
        }
        i += 1;
    }
    proof {
        assert(view.subrange(0, i as int) =~= view);
    }
    domains
}

/// Whether the list holds the domain.
pub fn domain_listed(domains: &[u32], domain_id: u32) -> (r: bool)
    ensures
        r == domains@.contains(domain_id),
{
    let mut i: usize = 0;
    while i < domains.len()
        invariant
            i <= domains@.len(),
            forall|k: int| 0 <= k < i ==> domains@[k] != domain_id,
        decreases domains@.len() - i,
    {
        if domains[i] == domain_id {
            return true;
        }
        i += 1;
    }
    false
}

/// A node of another daemon is dropped after thirty seconds of silence, a node of this
/// host without a process after ten, and a registration that was not completed after
/// two: not a second earlier, and not while it was never seen.
pub proof fn law_silence_limits(e: NodeView, now: u64, process_alive: bool)
    ensures
        e.state == 2 && e.pid == 0 && e.daemon_origin != 0 ==> (departs(e, now, process_alive)
            <==> e.last_seen_secs != 0 && now > e.last_seen_secs + 30),
        e.state == 2 && e.pid == 0 && e.daemon_origin == 0 && e.node_id != 0 ==> (departs(
            e,
            now,
            process_alive,
        ) <==> e.last_seen_secs != 0 && now > e.last_seen_secs + 10),
        e.state == 2 && e.pid == 0 && e.daemon_origin == 0 && e.node_id == 0 ==> !departs(
            e,
            now,
            process_alive,
        ),
        e.state == 1 ==> (departs(e, now, process_alive) <==> e.last_seen_secs != 0 && now
            > e.last_seen_secs + 2),
{
}

/// A node with a process lives as long as its process does, however long it has been
/// silent; one that says that it leaves is gone at once; and a slot in no such state is
/// left alone.
pub proof fn law_process_and_farewell_decide(e: NodeView, now: u64, process_alive: bool)
    ensures
        e.state == 2 && e.pid != 0 ==> (departs(e, now, process_alive) <==> !process_alive),
        e.state == 3 ==> departs(e, now, process_alive),
        e.state == 0 || e.state >= 4 ==> !departs(e, now, process_alive),
{
}

/// The slot of a node that is gone is empty, but for the endpoint that it had; the slot
/// of a node that is not stays as it is, but that a living process was just seen.
pub proof fn law_checked_slot(e: NodeView, now: u64, process_alive: bool)
    requires
        e.shaped(),
    ensures
        checked_slot(e, now, process_alive).shaped(),
        departs(e, now, process_alive) ==> ({
            let c = checked_slot(e, now, process_alive);
            &&& c.state == 0
            &&& c.node_id == 0
            &&& c.domain_id == 0
            &&& c.pid == 0
            &&& c.proc_starttime == 0
            &&& c.daemon_origin == 0
            &&& c.last_seen_secs == 0
            &&& c.pub_count == 0
            &&& c.sub_count == 0
            &&& c.match_count == 0
            &&& c.quic_addr_count == 0
            &&& forall|k: int| 0 <= k < 128 ==> #[trigger] c.node_name[k] == 0
            &&& forall|k: int| 0 <= k < 128 ==> #[trigger] c.node_namespace[k] == 0
            &&& forall|k: int| 0 <= k < 256 ==> (#[trigger] c.published_topics[k]).hash == 0
            &&& forall|k: int| 0 <= k < 256 ==> (#[trigger] c.subscribed_topics[k]).hash == 0
            &&& forall|k: int| 0 <= k < 1024 ==> (#[trigger] c.remote_matches[k]).node_id == 0
        }),
        !departs(e, now, process_alive) && e.state == 2 && e.pid != 0 ==> checked_slot(
            e,
            now,
            process_alive,
        ) == (NodeView { last_seen_secs: now, ..e }),
        !departs(e, now, process_alive) && !(e.state == 2 && e.pid != 0) ==> checked_slot(
            e,
            now,
            process_alive,
        ) == e,
{
}

/// The nodes that depart are exactly those of the slots whose node is gone.
pub proof fn law_departed_exactly(table: Seq<NodeView>, now: u64, alive: Seq<bool>, id: u64)
    ensures
        departed_ids(table, now, alive).contains(id) <==> id != 0 && exists|i: int|
            0 <= i < table.len() && (#[trigger] table[i]).node_id == id && departs(
                table[i],
                now,
                alive[i],
            ),
    decreases table.len(),
{
    if table.len() > 0 {
        let init = table.drop_last();
        let rest = departed_ids(init, now, alive);
        let all = departed_ids(table, now, alive);
        law_departed_exactly(init, now, alive, id);
        if all.contains(id) {
            let k = choose|k: int| 0 <= k < all.len() && all[k] == id;
            if k < rest.len() {
                assert(rest[k] == id);
                let i = choose|i: int|
                    0 <= i < init.len() && (#[trigger] init[i]).node_id == id && departs(
                        init[i],
                        now,
                        alive[i],
                    );
                assert(table[i] == init[i]);
            } else {
                assert(table[table.len() - 1].node_id == id);
            }
        }
        if id != 0 && exists|i: int|
            0 <= i < table.len() && (#[trigger] table[i]).node_id == id && departs(
                table[i],
                now,
                alive[i],
            ) {
            let i = choose|i: int|
                0 <= i < table.len() && (#[trigger] table[i]).node_id == id && departs(
                    table[i],
                    now,
                    alive[i],
                );
            if i < table.len() - 1 {
                assert(init[i] == table[i]);
                let k = choose|k: int| 0 <= k < rest.len() && rest[k] == id;
                assert(all[k] == id);
            } else {
                assert(all[rest.len() as int] == id);
            }
        }
    }
}

/// A node that was seen in time keeps its slot: an active node of another daemon for
/// thirty seconds, one of this host without a process for ten, a pending one for two,
/// and one whose process lives for as long as it does. Only matches of nodes that are
/// gone leave the slot, and every other match stays.
pub proof fn law_seen_node_keeps_its_slot(
    table: Seq<NodeView>,
    now: u64,
    alive: Seq<bool>,
    i: int,
    m: discovery_shm::MatchEntry,
)
    requires
        0 <= i < table.len(),
        table[i].shaped(),
        table[i].match_count <= MAX_MATCHES,
        table[i].state == 1 || table[i].state == 2,
        table[i].state == 1 ==> now <= table[i].last_seen_secs + 2,
        table[i].state == 2 && table[i].pid == 0 && table[i].daemon_origin != 0 ==> now
            <= table[i].last_seen_secs + 30,
        table[i].state == 2 && table[i].pid == 0 && table[i].daemon_origin == 0 ==> now
            <= table[i].last_seen_secs + 10,
        table[i].state == 2 && table[i].pid != 0 ==> alive[i],
    ensures
        ({
            let after = match_list::without_nodes(
                checked_table(table, now, alive),
                departed_ids(table, now, alive),
                false,
            )[i];
            let had = table[i].remote_matches.subrange(0, table[i].match_count as int);
            let has = after.remote_matches.subrange(0, after.match_count as int);
            &&& after == (NodeView {
                remote_matches: after.remote_matches,
                match_count: after.match_count,
                response_gen: after.response_gen,
                last_seen_secs: if table[i].state == 2 && table[i].pid != 0 {
                    now
                } else {
                    table[i].last_seen_secs
                },
                ..table[i]
            })
            &&& has.contains(m) ==> had.contains(m)
            &&& had.contains(m) && !departed_ids(table, now, alive).contains(m.node_id)
                ==> has.contains(m)
            &&& after.match_count == table[i].match_count ==> after.remote_matches
                == table[i].remote_matches && after.response_gen == table[i].response_gen
        }),
{
    let checked = checked_table(table, now, alive);
    match_list::law_nodes_are_dropped_exactly(
        checked,
        departed_ids(table, now, alive),
        false,
        i,
        m,
    );
}

/// A node that was silent for too long has lost its slot after the check, and no active
/// slot counts a match of it any more: an active node of another daemon after thirty
/// seconds, one of this host without a process after ten, a pending one after two, and
/// one whose process died or that said that it leaves at once.
pub proof fn law_silent_node_is_gone(
    table: Seq<NodeView>,
    now: u64,
    alive: Seq<bool>,
    i: int,
    j: int,
    m: discovery_shm::MatchEntry,
)
    requires
        0 <= i < table.len(),
        0 <= j < table.len(),
        table[i].shaped(),
        table[j].shaped(),
        table[j].match_count <= MAX_MATCHES,
        table[j].state == 2,
        ({
            let e = table[i];
            ||| e.state == 3
            ||| (e.state == 1 && e.last_seen_secs != 0 && now > e.last_seen_secs + 2)
            ||| (e.state == 2 && e.pid != 0 && !alive[i])
            ||| (e.state == 2 && e.pid == 0 && e.daemon_origin != 0 && e.last_seen_secs != 0 && now
                > e.last_seen_secs + 30)
            ||| (e.state == 2 && e.pid == 0 && e.daemon_origin == 0 && e.node_id != 0
                && e.last_seen_secs != 0 && now > e.last_seen_secs + 10)
        }),
        table[i].node_id != 0,
        m.node_id == table[i].node_id,
    ensures
        ({
            let after = match_list::without_nodes(
                checked_table(table, now, alive),
                departed_ids(table, now, alive),
                false,
            );
            &&& after[i].state == 0
            &&& after[i].node_id == 0
            &&& after[i].pub_count == 0
            &&& after[i].sub_count == 0
            &&& after[i].match_count == 0
            &&& !after[j].remote_matches.subrange(0, after[j].match_count as int).contains(m)
            &&& any_departs(table, now, alive)
        }),
{
    let checked = checked_table(table, now, alive);
    let ids = departed_ids(table, now, alive);
    assert(departs(table[i], now, alive[i]));
    law_departed_exactly(table, now, alive, table[i].node_id);
    match_list::law_nodes_are_dropped_exactly(checked, ids, false, i, m);
    match_list::law_nodes_are_dropped_exactly(checked, ids, false, j, m);
    let d = match_list::without_nodes(checked, ids, false)[j];
    if departs(table[j], now, alive[j]) {
        assert(checked[j].state == 0);
        assert(d == checked[j]);
        assert(d.remote_matches.subrange(0, 0) =~= Seq::empty());
    } else {
        assert(checked[j].state == 2);
    }
}

/// A domain is in use exactly if a node of this host that is not leaving is in it, and
/// it is listed once.
pub proof fn law_domains_in_use_exactly(table: Seq<NodeView>, domain_id: u32)
    ensures
        domains_in_use(table).contains(domain_id) <==> exists|i: int|
            0 <= i < table.len() && (#[trigger] table[i]).domain_id == domain_id && table[i].state
                != 0 && table[i].state != 3 && table[i].daemon_origin == 0,
        domains_in_use(table).no_duplicates(),
    decreases table.len(),
{
    if table.len() > 0 {
        let init = table.drop_last();
        let rest = domains_in_use(init);
        let all = domains_in_use(table);
        law_domains_in_use_exactly(init, domain_id);
        if rest.contains(domain_id) {
            let k = choose|k: int| 0 <= k < rest.len() && rest[k] == domain_id;
            assert(all[k] == domain_id);
            let i = choose|i: int|
                0 <= i < init.len() && (#[trigger] init[i]).domain_id == domain_id && init[i].state
                    != 0 && init[i].state != 3 && init[i].daemon_origin == 0;
            assert(table[i] == init[i]);
        } else if all.contains(domain_id) {
            let k = choose|k: int| 0 <= k < all.len() && all[k] == domain_id;
            if k < rest.len() {
                assert(rest[k] == domain_id);
            }
            assert(table[table.len() - 1].domain_id == domain_id);
        }
        if exists|i: int|
            0 <= i < table.len() && (#[trigger] table[i]).domain_id == domain_id && table[i].state
                != 0 && table[i].state != 3 && table[i].daemon_origin == 0 {
            let i = choose|i: int|
                0 <= i < table.len() && (#[trigger] table[i]).domain_id == domain_id
                    && table[i].state != 0 && table[i].state != 3 && table[i].daemon_origin == 0;
            if i < table.len() - 1 {
                assert(init[i] == table[i]);
            } else if !rest.contains(domain_id) {
                assert(all[rest.len() as int] == domain_id);
            }
        }
    }
}

/// A slot uses the channel of a topic in a domain exactly if it holds a node of this host
/// in that domain that publishes or subscribes to the topic: a node of another daemon or
/// of another domain uses none, nor does an empty slot.
pub proof fn law_channels_of_a_slot(e: NodeView, domain_id: u32, hash: u64)
    requires
        e.shaped(),
        e.counts_fit(),
    ensures
        slot_has_channel(e, domain_id, hash) <==> e.state != 0 && e.daemon_origin == 0
            && e.domain_id == domain_id && hash != 0 && ((exists|k: int|
            0 <= k < e.pub_count && (#[trigger] e.published_topics[k]).hash == hash) || (exists|
            k: int,
        |
            0 <= k < e.sub_count && (#[trigger] e.subscribed_topics[k]).hash == hash)),
        forall|table: Seq<NodeView>|
            slot_has_channel(e, domain_id, hash) && #[trigger] table.contains(e) ==> has_channel(
                table,
                domain_id,
                hash,
            ),
{
    if discovery_shm::has_hash(e.pubs(), hash) {
        let k = choose|k: int| 0 <= k < e.pubs().len() && (#[trigger] e.pubs()[k]).hash == hash;
        assert(e.published_topics[k].hash == hash);
    }
    if discovery_shm::has_hash(e.subs(), hash) {
        let k = choose|k: int| 0 <= k < e.subs().len() && (#[trigger] e.subs()[k]).hash == hash;
        assert(e.subscribed_topics[k].hash == hash);
    }
    if exists|k: int| 0 <= k < e.pub_count && (#[trigger] e.published_topics[k]).hash == hash {
        let k = choose|k: int|
            0 <= k < e.pub_count && (#[trigger] e.published_topics[k]).hash == hash;
        assert(e.pubs()[k].hash == hash);
    }
    if exists|k: int| 0 <= k < e.sub_count && (#[trigger] e.subscribed_topics[k]).hash == hash {
        let k = choose|k: int|
            0 <= k < e.sub_count && (#[trigger] e.subscribed_topics[k]).hash == hash;
        assert(e.subs()[k].hash == hash);
    }
}

/// The slot of a node that departed keeps the endpoint that the node was reached at.
pub proof fn law_departed_slot_keeps_its_endpoint(e: NodeView, now: u64, process_alive: bool)
    ensures
        checked_slot(e, now, process_alive).quic_port == e.quic_port,
        checked_slot(e, now, process_alive).quic_addrs == e.quic_addrs,
{
}

/// That a node departed is told exactly if one did, and a channel is in use exactly if a
/// slot uses it; a check changes each slot in its own place.
pub proof fn law_departures_and_channels_exactly(
    table: Seq<NodeView>,
    now: u64,
    alive: Seq<bool>,
    domain_id: u32,
    hash: u64,
    i: int,
)
    requires
        0 <= i < table.len(),
    ensures
        departs(table[i], now, alive[i]) ==> any_departs(table, now, alive),
        (forall|k: int| 0 <= k < table.len() ==> !departs(#[trigger] table[k], now, alive[k]))
            ==> !any_departs(table, now, alive),
        slot_has_channel(table[i], domain_id, hash) ==> has_channel(table, domain_id, hash),
        (forall|k: int|
            0 <= k < table.len() ==> !slot_has_channel(#[trigger] table[k], domain_id, hash))
            ==> !has_channel(table, domain_id, hash),
        checked_table(table, now, alive).len() == table.len(),
        checked_table(table, now, alive)[i] == checked_slot(table[i], now, alive[i]),
{
}

} // verus!
