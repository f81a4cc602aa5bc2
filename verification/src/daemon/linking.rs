//! How the daemon links publishers to subscriptions: a node that registers meets the
//! nodes of its domain, and later topics link as they appear.
use vstd::prelude::*;

use crate::daemon::discovery_shm;
use crate::daemon::discovery_shm::{
    position_of_node, topic_entry_qos_compatible, MatchEntry, NodeTableEntry, NodeView,
    ShmDiscovery, SlotState, TopicEntry, TopicView, MAX_MATCHES, MAX_QUIC_ADDRS,
};
use crate::daemon::match_list;
use crate::daemon::match_list::drop_table_matches;

verus! {

/// Whether a subscription among `subs` takes what `p` publishes.
pub open spec fn served(p: TopicView, subs: Seq<TopicView>) -> bool {
    exists|k: int|
        0 <= k < subs.len() && (#[trigger] subs[k]).hash == p.hash
            && discovery_shm::topics_qos_compatible(p, subs[k])
}

/// The hashes of those `pubs`, in order, that a subscription among `subs` takes.
pub open spec fn served_hashes(pubs: Seq<TopicView>, subs: Seq<TopicView>) -> Seq<u64>
    decreases pubs.len(),
{
    if pubs.len() == 0 {
        Seq::empty()
    } else {
        let rest = served_hashes(pubs.drop_last(), subs);
        if served(pubs.last(), subs) {
            rest.push(pubs.last().hash)
        } else {
            rest
        }
    }
}

/// The addresses at which a node can be reached.
pub open spec fn reach(e: NodeView) -> Seq<[u8; 4]> {
    e.quic_addrs.subrange(
        0,
        if e.quic_addr_count <= MAX_QUIC_ADDRS {
            e.quic_addr_count as int
        } else {
            MAX_QUIC_ADDRS as int
        },
    )
}

/// The first `n` addresses, or all where there are fewer.
pub open spec fn first_addrs(addrs: Seq<[u8; 4]>, n: int) -> Seq<[u8; 4]> {
    if n <= addrs.len() {
        addrs.subrange(0, n)
    } else {
        addrs
    }
}

/// One match for each address.
pub open spec fn matches_for(node_id: u64, hash: u64, port: u16, addrs: Seq<[u8; 4]>) -> Seq<
    MatchEntry,
> {
    addrs.map_values(|a: [u8; 4]| MatchEntry { node_id, topic_hash: hash, port, addr: a })
}

/// How many more matches a list of `len` has room for.
pub open spec fn room(len: int) -> int {
    if len < MAX_MATCHES {
        MAX_MATCHES - len
    } else {
        0
    }
}

/// `ms` with a match for each address, as far as there is room.
pub open spec fn with_all(
    ms: Seq<MatchEntry>,
    node_id: u64,
    hash: u64,
    port: u16,
    addrs: Seq<[u8; 4]>,
) -> Seq<MatchEntry> {
    ms + matches_for(node_id, hash, port, first_addrs(addrs, room(ms.len() as int)))
}

/// Whether `ms` holds a match of the node and topic at the address.
pub open spec fn has_match(ms: Seq<MatchEntry>, node_id: u64, hash: u64, addr: [u8; 4]) -> bool {
    exists|k: int|
        0 <= k < ms.len() && (#[trigger] ms[k]).node_id == node_id && ms[k].topic_hash == hash
            && ms[k].addr == addr
}

/// `ms` with a match for each address that it does not hold yet, as far as there is
/// room.
pub open spec fn with_missing(
    ms: Seq<MatchEntry>,
    node_id: u64,
    hash: u64,
    port: u16,
    addrs: Seq<[u8; 4]>,
) -> Seq<MatchEntry>
    decreases addrs.len(),
{
    if addrs.len() == 0 {
        ms
    } else {
        let prev = with_missing(ms, node_id, hash, port, addrs.drop_last());
        if !has_match(prev, node_id, hash, addrs.last()) && prev.len() < MAX_MATCHES {
            prev.push(MatchEntry { node_id, topic_hash: hash, port, addr: addrs.last() })
        } else {
            prev
        }
    }
}

/// The matches for those addresses that `existing` does not hold.
pub open spec fn fresh_matches(
    existing: Seq<MatchEntry>,
    node_id: u64,
    hash: u64,
    port: u16,
    addrs: Seq<[u8; 4]>,
) -> Seq<MatchEntry>
    decreases addrs.len(),
{
    if addrs.len() == 0 {
        Seq::empty()
    } else {
        let prev = fresh_matches(existing, node_id, hash, port, addrs.drop_last());
        if has_match(existing, node_id, hash, addrs.last()) {
            prev
        } else {
            prev.push(MatchEntry { node_id, topic_hash: hash, port, addr: addrs.last() })
        }
    }
}

/// `ms` with `new` written over it from `at` on.
pub open spec fn overwritten(ms: Seq<MatchEntry>, at: int, new: Seq<MatchEntry>) -> Seq<
    MatchEntry,
> {
    ms.subrange(0, at) + new + ms.subrange(at + new.len(), ms.len() as int)
}

/// A slot that learns at which addresses `from` can be reached for a topic.
pub open spec fn learned(e: NodeView, from: NodeView, hash: u64) -> NodeView {
    let count = e.match_count as int;
    let known = e.remote_matches.subrange(
        0,
        if count <= MAX_MATCHES {
            count
        } else {
            MAX_MATCHES as int
        },
    );
    let new = fresh_matches(
        known,
        from.node_id,
        hash,
        from.quic_port,
        first_addrs(reach(from), room(count)),
    );
    if new.len() > 0 {
        NodeView {
            remote_matches: overwritten(e.remote_matches, count, new),
            match_count: (count + new.len()) as u32,
            ..e
        }
    } else {
        e
    }
}

/// `after`, with its generation one step on where it has more matches than `before`.
pub open spec fn stepped(before: NodeView, after: NodeView) -> NodeView {
    if after.match_count != before.match_count {
        NodeView { response_gen: match_list::next_generation(after.response_gen), ..after }
    } else {
        after
    }
}

/// A slot that learns of `from` for each topic, stepping its generation each time
/// that it learns something.
pub open spec fn told_each(e: NodeView, from: NodeView, hashes: Seq<u64>) -> NodeView
    decreases hashes.len(),
{
    if hashes.len() == 0 {
        e
    } else {
        let prev = told_each(e, from, hashes.drop_last());
        stepped(prev, learned(prev, from, hashes.last()))
    }
}

/// A slot that learns of `from` for each topic.
pub open spec fn learned_each(e: NodeView, from: NodeView, hashes: Seq<u64>) -> NodeView
    decreases hashes.len(),
{
    if hashes.len() == 0 {
        e
    } else {
        learned(learned_each(e, from, hashes.drop_last()), from, hashes.last())
    }
}

/// `own` with all addresses of `peer` for each topic.
pub open spec fn all_each(own: Seq<MatchEntry>, peer: NodeView, hashes: Seq<u64>) -> Seq<MatchEntry>
    decreases hashes.len(),
{
    if hashes.len() == 0 {
        own
    } else {
        with_all(
            all_each(own, peer, hashes.drop_last()),
            peer.node_id,
            hashes.last(),
            peer.quic_port,
            reach(peer),
        )
    }
}

/// `own` with the missing addresses of `peer` for each topic.
pub open spec fn missing_each(own: Seq<MatchEntry>, peer: NodeView, hashes: Seq<u64>) -> Seq<
    MatchEntry,
>
    decreases hashes.len(),
{
    if hashes.len() == 0 {
        own
    } else {
        with_missing(
            missing_each(own, peer, hashes.drop_last()),
            peer.node_id,
            hashes.last(),
            peer.quic_port,
            reach(peer),
        )
    }
}

/// The addresses of a node, copied out of its slot.
pub struct Endpoint {
    pub node_id: u64,
    pub port: u16,
    pub addrs: Vec<[u8; 4]>,
}

impl Endpoint {
    /// Whether this is the endpoint of the slot.
    pub open spec fn of(self, e: NodeView) -> bool {
        &&& self.node_id == e.node_id
        &&& self.port == e.quic_port
        &&& self.addrs@ == reach(e)
    }
}

/// The endpoint of a slot.
fn endpoint_of(entry: &NodeTableEntry) -> (r: Endpoint)
    ensures
        r.of(entry@),
{
    let n: usize = if entry.quic_addr_count as usize <= MAX_QUIC_ADDRS {
        entry.quic_addr_count as usize
    } else {
        MAX_QUIC_ADDRS
    };
    let mut addrs: Vec<[u8; 4]> = Vec::new();
    let mut i: usize = 0;
    while i < n
        invariant
            i <= n <= MAX_QUIC_ADDRS,
            addrs@ == entry.quic_addrs@.subrange(0, i as int),
        decreases n - i,
    {
        addrs.push(entry.quic_addrs[i]);
        i += 1;
        proof {
            assert(addrs@ =~= entry.quic_addrs@.subrange(0, i as int));
        }
    }
    Endpoint { node_id: entry.node_id, port: entry.quic_port, addrs }
}

/// Whether two addresses are equal.
pub fn addr_equal(a: &[u8; 4], b: &[u8; 4]) -> (r: bool)
    ensures
        r == (*a == *b),
{
    let r = a[0] == b[0] && a[1] == b[1] && a[2] == b[2] && a[3] == b[3];
    proof {
        if r {
            assert forall|i: int| 0 <= i < 4 implies a[i] == b[i] by {}
            assert(*a =~= *b);
        }
    }
    r
}

/// Whether the first `len` matches hold one of the node and topic at the address.
fn match_listed(ms: &Vec<MatchEntry>, len: usize, node_id: u64, hash: u64, addr: &[u8; 4]) -> (r:
    bool)
    requires
        len <= ms@.len(),
    ensures
        r == has_match(ms@.subrange(0, len as int), node_id, hash, *addr),
{
    let ghost head = ms@.subrange(0, len as int);
    let mut i: usize = 0;
    while i < len
        invariant
            i <= len <= ms@.len(),
            head == ms@.subrange(0, len as int),
            forall|k: int|
                0 <= k < i ==> !((#[trigger] head[k]).node_id == node_id && head[k].topic_hash
                    == hash && head[k].addr == *addr),
        decreases len - i,
    {
        assert(head[i as int] == ms@[i as int]);
        if ms[i].node_id == node_id && ms[i].topic_hash == hash && addr_equal(&ms[i].addr, addr) {
            return true;
        }
        i += 1;
    }
    false
}

/// The smaller of two sizes.
fn smaller(a: usize, b: usize) -> (r: usize)
    ensures
        r == (if a <= b {
            a
        } else {
            b
        }),
{
    if a <= b {
        a
    } else {
        b
    }
}

/// Adds a match for each of the first `addr_count` addresses, at most as many as a
/// node can have and as there is room for.
pub fn push_matches_for_all_addrs(
    matches: &mut Vec<MatchEntry>,
    node_id: u64,
    topic_hash: u64,
    port: u16,
    addrs: &[[u8; 4]],
    addr_count: usize,
)
    ensures
        final(matches)@ == with_all(
            old(matches)@,
            node_id,
            topic_hash,
            port,
            first_addrs(
                addrs@,
                if addr_count <= MAX_QUIC_ADDRS {
                    addr_count as int
                } else {
                    MAX_QUIC_ADDRS as int
                },
            ),
        ),
{
    let ghost before = matches@;
    let limit: usize = smaller(addr_count, MAX_QUIC_ADDRS);
    let space: usize = MAX_MATCHES.saturating_sub(matches.len());
    let to_add: usize = smaller(smaller(limit, space), addrs.len());
    let ghost used = first_addrs(
        first_addrs(addrs@, limit as int),
        room(before.len() as int),
    );
    proof {
        assert(used =~= addrs@.subrange(0, to_add as int));
    }
    let mut i: usize = 0;
    while i < to_add
        invariant
            i <= to_add <= addrs@.len(),
            matches@ == before + matches_for(
                node_id,
                topic_hash,
                port,
                addrs@.subrange(0, i as int),
            ),
        decreases to_add - i,
    {
        matches.push(MatchEntry { node_id, topic_hash, port, addr: addrs[i] });
        i += 1;
        proof {
            assert(matches@ =~= before + matches_for(
                node_id,
                topic_hash,
                port,
                addrs@.subrange(0, i as int),
            ));
        }
    }
}

/// Adds a match for each of the first `addr_count` addresses that has none yet, at
/// most as many as a node can have and as there is room for.
pub fn push_match_for_all_addrs_dedup(
    matches: &mut Vec<MatchEntry>,
    node_id: u64,
    topic_hash: u64,
    port: u16,
    addrs: &[[u8; 4]],
    addr_count: usize,
)
    ensures
        final(matches)@ == with_missing(
            old(matches)@,
            node_id,
            topic_hash,
            port,
            first_addrs(
                addrs@,
                if addr_count <= MAX_QUIC_ADDRS {
                    addr_count as int
                } else {
                    MAX_QUIC_ADDRS as int
                },
            ),
        ),
{
    let ghost before = matches@;
    let limit: usize = smaller(smaller(addr_count, MAX_QUIC_ADDRS), addrs.len());
    proof {
        assert(addrs@.subrange(0, 0) =~= Seq::empty());
    }
    let mut i: usize = 0;
    while i < limit
        invariant
            i <= limit <= addrs@.len(),
            matches@ == with_missing(
                before,
                node_id,
                topic_hash,
                port,
                addrs@.subrange(0, i as int),
            ),
        decreases limit - i,
    {
        proof {
            assert(addrs@.subrange(0, i + 1).drop_last() =~= addrs@.subrange(0, i as int));
            assert(matches@.subrange(0, matches@.len() as int) =~= matches@);
        }
        if !match_listed(matches, matches.len(), node_id, topic_hash, &addrs[i]) && matches.len()
            < MAX_MATCHES {
            matches.push(MatchEntry { node_id, topic_hash, port, addr: addrs[i] });
        }
        i += 1;
    }
    proof {
        assert(addrs@.subrange(0, limit as int) =~= first_addrs(
            addrs@,
            if addr_count <= MAX_QUIC_ADDRS {
                addr_count as int
            } else {
                MAX_QUIC_ADDRS as int
            },
        ));
    }
}

proof fn lemma_fresh_len(
    existing: Seq<MatchEntry>,
    node_id: u64,
    hash: u64,
    port: u16,
    addrs: Seq<[u8; 4]>,
)
    ensures
        fresh_matches(existing, node_id, hash, port, addrs).len() <= addrs.len(),
    decreases addrs.len(),
{
    if addrs.len() > 0 {
        lemma_fresh_len(existing, node_id, hash, port, addrs.drop_last());
    }
}

/// Learning touches the match list only, and only lengthens it.
pub proof fn lemma_learned(e: NodeView, from: NodeView, hash: u64)
    requires
        e.shaped(),
        from.shaped(),
    ensures
        learned(e, from, hash).shaped(),
        learned(e, from, hash).match_count >= e.match_count,
        learned(e, from, hash) == (NodeView {
            remote_matches: learned(e, from, hash).remote_matches,
            match_count: learned(e, from, hash).match_count,
            ..e
        }),
{
    let count = e.match_count as int;
    let known = e.remote_matches.subrange(
        0,
        if count <= MAX_MATCHES {
            count
        } else {
            MAX_MATCHES as int
        },
    );
    lemma_fresh_len(
        known,
        from.node_id,
        hash,
        from.quic_port,
        first_addrs(reach(from), room(count)),
    );
}

/// Lets a slot learn of an endpoint for a topic, and says whether it learned something.
fn learn(entry: &mut NodeTableEntry, from: &Endpoint, hash: u64, Ghost(src): Ghost<NodeView>) -> (r:
    bool)
    requires
        old(entry)@.shaped(),
        src.shaped(),
        from.of(src),
    ensures
        final(entry)@ == learned(old(entry)@, src, hash),
        final(entry)@.shaped(),
        r == (final(entry)@.match_count != old(entry)@.match_count),
{
    let ghost before = entry@;
    let current: usize = entry.match_count as usize;
    let space: usize = MAX_MATCHES.saturating_sub(current);
    let to_add: usize = smaller(from.addrs.len(), space);
    proof {
        lemma_learned(before, src, hash);
    }
    if to_add == 0 {
        proof {
            let used = first_addrs(reach(src), room(current as int));
            assert(used.len() == 0);
        }
        return false;
    }
    let ghost known = before.remote_matches.subrange(0, current as int);
    let ghost used = first_addrs(reach(src), room(current as int));
    proof {
        assert(used =~= from.addrs@.subrange(0, to_add as int));
        assert(used.subrange(0, 0) =~= Seq::empty());
        assert(entry.remote_matches@ =~= overwritten(
            before.remote_matches,
            current as int,
            Seq::empty(),
        ));
    }
    let mut added: usize = 0;
    let mut i: usize = 0;
    while i < to_add
        invariant
            i <= to_add <= from.addrs@.len(),
            to_add <= MAX_MATCHES - current,
            used == from.addrs@.subrange(0, to_add as int),
            known == before.remote_matches.subrange(0, current as int),
            before.shaped(),
            from.of(src),
            before.match_count == current,
            added <= i,
            added == fresh_matches(
                known,
                src.node_id,
                hash,
                src.quic_port,
                used.subrange(0, i as int),
            ).len(),
            entry@ == (NodeView {
                remote_matches: overwritten(
                    before.remote_matches,
                    current as int,
                    fresh_matches(
                        known,
                        src.node_id,
                        hash,
                        src.quic_port,
                        used.subrange(0, i as int),
                    ),
                ),
                ..before
            }),
        decreases to_add - i,
    {
        let ghost sofar = fresh_matches(
            known,
            src.node_id,
            hash,
            src.quic_port,
            used.subrange(0, i as int),
        );
        let ghost prior = entry@;
        proof {
            assert(used.subrange(0, i + 1).drop_last() =~= used.subrange(0, i as int));
            assert(entry.remote_matches@.subrange(0, current as int) =~= known);
            assert(entry.remote_matches@.len() == MAX_MATCHES);
        }
        let addr: [u8; 4] = from.addrs[i];
        if !match_listed(&entry.remote_matches, current, from.node_id, hash, &addr) {
            let new = MatchEntry { node_id: from.node_id, topic_hash: hash, port: from.port, addr };
            entry.remote_matches[current + added] = new;
            added += 1;
            proof {
                assert(entry.remote_matches@ =~= overwritten(
                    before.remote_matches,
                    current as int,
                    sofar.push(new),
                ));
                assert(entry@ =~= NodeView { remote_matches: entry.remote_matches@, ..prior });
            }
        }
        i += 1;
    }
    proof {
        assert(used.subrange(0, i as int) =~= used);
    }
    if added > 0 {
        entry.match_count = entry.match_count + added as u32;
        proof {
            assert(entry@ =~= learned(before, src, hash));
        }
        true
    } else {
        proof {
            assert(entry@ =~= before) by {
                assert(overwritten(before.remote_matches, current as int, Seq::empty())
                    =~= before.remote_matches);
            }
        }
        false
    }
}

/// Whether a subscription among the first `sub_count` takes what `p` publishes.
fn is_served(p: &TopicEntry, subs: &Vec<TopicEntry>, sub_count: usize) -> (r: bool)
    requires
        sub_count <= subs@.len(),
    ensures
        r == served(p@, discovery_shm::topics_view(subs@).subrange(0, sub_count as int)),
{
    let ghost view = discovery_shm::topics_view(subs@).subrange(0, sub_count as int);
    let mut i: usize = 0;
    while i < sub_count
        invariant
            i <= sub_count <= subs@.len(),
            view == discovery_shm::topics_view(subs@).subrange(0, sub_count as int),
            forall|k: int|
                0 <= k < i ==> !((#[trigger] view[k]).hash == p.hash
                    && discovery_shm::topics_qos_compatible(p@, view[k])),
        decreases sub_count - i,
    {
        assert(view[i as int] == subs@[i as int]@);
        if subs[i].hash == p.hash && topic_entry_qos_compatible(p, &subs[i]) {
            return true;
        }
        i += 1;
    }
    false
}

/// The hashes of the topics of `publisher`, in order, that `subscriber` takes.
fn hashes_served(publisher: &NodeTableEntry, subscriber: &NodeTableEntry) -> (r: Vec<u64>)
    requires
        publisher@.shaped(),
        subscriber@.shaped(),
        publisher@.counts_fit(),
        subscriber@.counts_fit(),
    ensures
        r@ == served_hashes(publisher@.pubs(), subscriber@.subs()),
{
    let ghost pubs = publisher@.pubs();
    let ghost subs = subscriber@.subs();
    let mut r: Vec<u64> = Vec::new();
    let mut i: usize = 0;
    proof {
        assert(pubs.subrange(0, 0) =~= Seq::empty());
    }
    while i < publisher.pub_count as usize
        invariant
            i <= publisher.pub_count <= publisher.published_topics@.len(),
            subscriber.sub_count <= subscriber.subscribed_topics@.len(),
            pubs == publisher@.pubs(),
            subs == subscriber@.subs(),
            r@ == served_hashes(pubs.subrange(0, i as int), subs),
        decreases publisher.pub_count - i,
    {
        proof {
            assert(pubs.subrange(0, i + 1).drop_last() =~= pubs.subrange(0, i as int));
            assert(pubs.subrange(0, i + 1).last() == publisher.published_topics@[i as int]@);
        }
        if is_served(
            &publisher.published_topics[i],
            &subscriber.subscribed_topics,
            subscriber.sub_count as usize,
        ) {
            r.push(publisher.published_topics[i].hash);
        }
        i += 1;
    }
    proof {
        assert(pubs.subrange(0, i as int) =~= pubs);
    }
    r
}

/// A slot that was told of `from` for each topic keeps all but its matches and its
/// generation.
pub proof fn lemma_told_each(e: NodeView, from: NodeView, hashes: Seq<u64>)
    requires
        e.shaped(),
        from.shaped(),
    ensures
        ({
            let t = told_each(e, from, hashes);
            &&& t.shaped()
            &&& t == (NodeView {
                remote_matches: t.remote_matches,
                match_count: t.match_count,
                response_gen: t.response_gen,
                ..e
            })
        }),
    decreases hashes.len(),
{
    if hashes.len() > 0 {
        lemma_told_each(e, from, hashes.drop_last());
        lemma_learned(told_each(e, from, hashes.drop_last()), from, hashes.last());
    }
}

/// A slot that learned of `from` for each topic keeps all but its matches, of which
/// it has no fewer than before.
pub proof fn lemma_learned_each(e: NodeView, from: NodeView, hashes: Seq<u64>)
    requires
        e.shaped(),
        from.shaped(),
    ensures
        ({
            let t = learned_each(e, from, hashes);
            &&& t.shaped()
            &&& t.match_count >= e.match_count
            &&& t == (NodeView {
                remote_matches: t.remote_matches,
                match_count: t.match_count,
                ..e
            })
        }),
    decreases hashes.len(),
{
    if hashes.len() > 0 {
        lemma_learned_each(e, from, hashes.drop_last());
        lemma_learned(learned_each(e, from, hashes.drop_last()), from, hashes.last());
    }
}

/// Whether a node that registers meets the node of another slot: that one is active
/// and in the same domain.
pub open spec fn meets(table: Seq<NodeView>, i: int, j: int) -> bool {
    &&& j != i
    &&& table[j].state == SlotState::Active.spec_value()
    &&& table[j].domain_id == table[i].domain_id
}

/// What the first `n` slots are after the node in slot `i` met them.
pub open spec fn met_slots(table: Seq<NodeView>, i: int, n: int) -> Seq<NodeView> {
    Seq::new(
        table.len(),
        |j: int|
            if j < n && meets(table, i, j) {
                told_each(table[j], table[i], served_hashes(table[i].pubs(), table[j].subs()))
            } else {
                table[j]
            },
    )
}

/// The matches that the node in slot `i` gathers from the first `n` slots: for each
/// topic of a peer that it takes all addresses of that peer, and for each of its
/// own topics that the peer takes those that are still missing.
pub open spec fn gathered(table: Seq<NodeView>, i: int, n: int) -> Seq<MatchEntry>
    decreases n,
{
    if n <= 0 {
        Seq::empty()
    } else {
        let own = gathered(table, i, n - 1);
        let me = table[i];
        let peer = table[n - 1];
        if meets(table, i, n - 1) {
            missing_each(
                all_each(own, peer, served_hashes(peer.pubs(), me.subs())),
                peer,
                served_hashes(me.pubs(), peer.subs()),
            )
        } else {
            own
        }
    }
}

/// Whether the first used slot of the node is active.
pub open spec fn node_active(table: Seq<NodeView>, node_id: u64) -> bool {
    match discovery_shm::slot_of_node(table, node_id) {
        Some(k) => table[k].state == SlotState::Active.spec_value(),
        None => false,
    }
}

/// Those of `ms`, in order, whose node is active.
pub open spec fn with_active_node(ms: Seq<MatchEntry>, table: Seq<NodeView>) -> Seq<MatchEntry>
    decreases ms.len(),
{
    if ms.len() == 0 {
        Seq::empty()
    } else {
        let rest = with_active_node(ms.drop_last(), table);
        if node_active(table, ms.last().node_id) {
            rest.push(ms.last())
        } else {
            rest
        }
    }
}

/// The table once the node in slot `i` is registered: it is active, it met the nodes
/// of its domain, and it holds the matches that it gathered from active nodes.
pub open spec fn registered(table: Seq<NodeView>, i: int) -> Seq<NodeView> {
    let started = table.update(
        i,
        NodeView { state: SlotState::Active.spec_value(), ..table[i] },
    );
    let met = met_slots(started, i, table.len() as int);
    let own = with_active_node(gathered(started, i, table.len() as int), met);
    met.update(
        i,
        NodeView {
            remote_matches: overwritten(met[i].remote_matches, 0, own),
            match_count: own.len() as u32,
            response_gen: match_list::next_generation(met[i].response_gen),
            ..met[i]
        },
    )
}

/// The table once the pending nodes among the first `n` slots are registered, one
/// after the other.
pub open spec fn all_registered(table: Seq<NodeView>, n: int) -> Seq<NodeView>
    decreases n,
{
    if n <= 0 {
        table
    } else {
        let prev = all_registered(table, n - 1);
        if prev[n - 1].state == SlotState::Pending.spec_value() {
            registered(prev, n - 1)
        } else {
            prev
        }
    }
}

/// Whether a node waits for its registration.
pub open spec fn any_pending(table: Seq<NodeView>) -> bool {
    exists|i: int|
        0 <= i < table.len() && (#[trigger] table[i]).state == SlotState::Pending.spec_value()
}

/// Whether the topic counts of every pending or active slot stay within its arrays.
pub open spec fn table_counts_fit(table: Seq<NodeView>) -> bool {
    forall|i: int|
        0 <= i < table.len() && ((#[trigger] table[i]).state == SlotState::Pending.spec_value()
            || table[i].state == SlotState::Active.spec_value()) ==> table[i].counts_fit()
}

proof fn lemma_all_each_len(own: Seq<MatchEntry>, peer: NodeView, hashes: Seq<u64>)
    requires
        own.len() <= MAX_MATCHES,
    ensures
        all_each(own, peer, hashes).len() <= MAX_MATCHES,
    decreases hashes.len(),
{
    if hashes.len() > 0 {
        lemma_all_each_len(own, peer, hashes.drop_last());
    }
}

proof fn lemma_with_missing_len(
    ms: Seq<MatchEntry>,
    node_id: u64,
    hash: u64,
    port: u16,
    addrs: Seq<[u8; 4]>,
)
    requires
        ms.len() <= MAX_MATCHES,
    ensures
        with_missing(ms, node_id, hash, port, addrs).len() <= MAX_MATCHES,
    decreases addrs.len(),
{
    if addrs.len() > 0 {
        lemma_with_missing_len(ms, node_id, hash, port, addrs.drop_last());
    }
}

proof fn lemma_missing_each_len(own: Seq<MatchEntry>, peer: NodeView, hashes: Seq<u64>)
    requires
        own.len() <= MAX_MATCHES,
    ensures
        missing_each(own, peer, hashes).len() <= MAX_MATCHES,
    decreases hashes.len(),
{
    if hashes.len() > 0 {
        lemma_missing_each_len(own, peer, hashes.drop_last());
        lemma_with_missing_len(
            missing_each(own, peer, hashes.drop_last()),
            peer.node_id,
            hashes.last(),
            peer.quic_port,
            reach(peer),
        );
    }
}

/// A node never gathers more matches than a slot has room for.
pub proof fn lemma_gathered_len(table: Seq<NodeView>, i: int, n: int)
    ensures
        gathered(table, i, n).len() <= MAX_MATCHES,
    decreases n,
{
    if n > 0 {
        lemma_gathered_len(table, i, n - 1);
        let me = table[i];
        let peer = table[n - 1];
        let own = gathered(table, i, n - 1);
        lemma_all_each_len(own, peer, served_hashes(peer.pubs(), me.subs()));
        lemma_missing_each_len(
            all_each(own, peer, served_hashes(peer.pubs(), me.subs())),
            peer,
            served_hashes(me.pubs(), peer.subs()),
        );
    }
}

proof fn lemma_with_active_node_len(ms: Seq<MatchEntry>, table: Seq<NodeView>)
    ensures
        with_active_node(ms, table).len() <= ms.len(),
    decreases ms.len(),
{
    if ms.len() > 0 {
        lemma_with_active_node_len(ms.drop_last(), table);
    }
}

/// Registering a node keeps every slot's shape, state (but its own) and topics.
pub proof fn lemma_registered(table: Seq<NodeView>, i: int)
    requires
        0 <= i < table.len(),
        discovery_shm::table_shaped(table),
    ensures
        registered(table, i).len() == table.len(),
        discovery_shm::table_shaped(registered(table, i)),
        registered(table, i)[i].state == SlotState::Active.spec_value(),
        forall|k: int|
            #![trigger registered(table, i)[k]]
            0 <= k < table.len() ==> {
                &&& (k != i ==> registered(table, i)[k].state == table[k].state)
                &&& registered(table, i)[k].pub_count == table[k].pub_count
                &&& registered(table, i)[k].sub_count == table[k].sub_count
            },
{
    let started = table.update(
        i,
        NodeView { state: SlotState::Active.spec_value(), ..table[i] },
    );
    let met = met_slots(started, i, table.len() as int);
    let own = with_active_node(gathered(started, i, table.len() as int), met);
    lemma_gathered_len(started, i, table.len() as int);
    lemma_with_active_node_len(gathered(started, i, table.len() as int), met);
    assert forall|k: int| 0 <= k < table.len() implies {
        &&& (#[trigger] registered(table, i)[k]).shaped()
        &&& (k != i ==> registered(table, i)[k].state == table[k].state)
        &&& registered(table, i)[k].pub_count == table[k].pub_count
        &&& registered(table, i)[k].sub_count == table[k].sub_count
    } by {
        assert(table[k].shaped());
        assert(table[i].shaped());
        assert(started[i].shaped());
        assert(started[k].shaped());
        if meets(started, i, k) {
            lemma_told_each(
                started[k],
                started[i],
                served_hashes(started[i].pubs(), started[k].subs()),
            );
        }
        assert(met[k].shaped());
        assert(met[i] == started[i]);
    }
}

/// Registering the pending nodes among the first `n` slots keeps every slot's shape
/// and topic counts, and the state of the slots from `n` on.
pub proof fn lemma_all_registered(table: Seq<NodeView>, n: int)
    requires
        0 <= n <= table.len(),
        discovery_shm::table_shaped(table),
        table_counts_fit(table),
    ensures
        all_registered(table, n).len() == table.len(),
        discovery_shm::table_shaped(all_registered(table, n)),
        table_counts_fit(all_registered(table, n)),
        forall|k: int|
            #![trigger all_registered(table, n)[k]]
            0 <= k < table.len() ==> all_registered(table, n)[k].state == (if k < n
                && table[k].state == SlotState::Pending.spec_value() {
                SlotState::Active.spec_value()
            } else {
                table[k].state
            }),
    decreases n,
{
    if n > 0 {
        lemma_all_registered(table, n - 1);
        let prev = all_registered(table, n - 1);
        assert(prev[n - 1].state == table[n - 1].state);
        if prev[n - 1].state == SlotState::Pending.spec_value() {
            lemma_registered(prev, n - 1);
            let next = registered(prev, n - 1);
            assert forall|k: int|
                0 <= k < next.len() && ((#[trigger] next[k]).state
                    == SlotState::Pending.spec_value() || next[k].state
                    == SlotState::Active.spec_value()) implies next[k].counts_fit() by {
                assert(next[k].pub_count == prev[k].pub_count);
                assert(prev[k].counts_fit());
            }
        }
    }
}

/// Once the pending nodes are registered none is pending any more, and registering
/// again changes nothing.
pub proof fn law_registration_completes(table: Seq<NodeView>)
    requires
        discovery_shm::table_shaped(table),
        table_counts_fit(table),
    ensures
        !any_pending(all_registered(table, table.len() as int)),
        all_registered(all_registered(table, table.len() as int), table.len() as int)
            == all_registered(table, table.len() as int),
{
    let done = all_registered(table, table.len() as int);
    lemma_all_registered(table, table.len() as int);
    assert forall|k: int| 0 <= k < done.len() implies (#[trigger] done[k]).state
        != SlotState::Pending.spec_value() by {}
    lemma_nothing_to_register(done, table.len() as int);
}

proof fn lemma_nothing_to_register(table: Seq<NodeView>, n: int)
    requires
        !any_pending(table),
        n <= table.len(),
    ensures
        all_registered(table, n) == table,
    decreases n,
{
    if n > 0 {
        lemma_nothing_to_register(table, n - 1);
        assert(table[n - 1].state != SlotState::Pending.spec_value());
    }
}

/// Adds all addresses of the peer for each topic.
fn gather_all(own: &mut Vec<MatchEntry>, peer: &Endpoint, hashes: &[u64], Ghost(src): Ghost<NodeView>)
    requires
        src.shaped(),
        peer.of(src),
    ensures
        final(own)@ == all_each(old(own)@, src, hashes@),
{
    let ghost before = own@;
    let mut k: usize = 0;
    proof {
        assert(hashes@.subrange(0, 0) =~= Seq::empty());
    }
    while k < hashes.len()
        invariant
            k <= hashes@.len(),
            src.shaped(),
            peer.of(src),
            own@ == all_each(before, src, hashes@.subrange(0, k as int)),
        decreases hashes@.len() - k,
    {
        proof {
            assert(hashes@.subrange(0, k + 1).drop_last() =~= hashes@.subrange(0, k as int));
        }
        push_matches_for_all_addrs(
            own,
            peer.node_id,
            hashes[k],
            peer.port,
            &peer.addrs,
            peer.addrs.len(),
        );
        k += 1;
    }
    proof {
        assert(hashes@.subrange(0, k as int) =~= hashes@);
    }
}

/// Adds the missing addresses of the peer for each topic.
fn gather_missing(
    own: &mut Vec<MatchEntry>,
    peer: &Endpoint,
    hashes: &[u64],
    Ghost(src): Ghost<NodeView>,
)
    requires
        src.shaped(),
        peer.of(src),
    ensures
        final(own)@ == missing_each(old(own)@, src, hashes@),
{
    let ghost before = own@;
    let mut k: usize = 0;
    proof {
        assert(hashes@.subrange(0, 0) =~= Seq::empty());
    }
    while k < hashes.len()
        invariant
            k <= hashes@.len(),
            src.shaped(),
            peer.of(src),
            own@ == missing_each(before, src, hashes@.subrange(0, k as int)),
        decreases hashes@.len() - k,
    {
        proof {
            assert(hashes@.subrange(0, k + 1).drop_last() =~= hashes@.subrange(0, k as int));
        }
        push_match_for_all_addrs_dedup(
            own,
            peer.node_id,
            hashes[k],
            peer.port,
            &peer.addrs,
            peer.addrs.len(),
        );
        proof {
            assert(first_addrs(peer.addrs@, peer.addrs@.len() as int) =~= reach(src));
        }
        k += 1;
    }
    proof {
        assert(hashes@.subrange(0, k as int) =~= hashes@);
    }
}

/// Tells a slot of an endpoint for each topic.
fn tell_each(entry: &mut NodeTableEntry, from: &Endpoint, hashes: &[u64], Ghost(src): Ghost<NodeView>)
    requires
        old(entry)@.shaped(),
        src.shaped(),
        from.of(src),
    ensures
        final(entry)@ == told_each(old(entry)@, src, hashes@),
        final(entry)@.shaped(),
{
    let ghost before = entry@;
    let mut k: usize = 0;
    proof {
        assert(hashes@.subrange(0, 0) =~= Seq::empty());
    }
    while k < hashes.len()
        invariant
            k <= hashes@.len(),
            src.shaped(),
            from.of(src),
            entry@.shaped(),
            entry@ == told_each(before, src, hashes@.subrange(0, k as int)),
        decreases hashes@.len() - k,
    {
        let ghost prior = entry@;
        proof {
            assert(hashes@.subrange(0, k + 1).drop_last() =~= hashes@.subrange(0, k as int));
        }
        if learn(entry, from, hashes[k], Ghost(src)) {
            let ghost after = entry@;
            entry.response_gen = entry.response_gen.wrapping_add(1);
            proof {
                assert(entry@ =~= stepped(prior, after));
            }
        }
        k += 1;
    }
    proof {
        assert(hashes@.subrange(0, k as int) =~= hashes@);
    }
}

/// Lets a slot learn of an endpoint for each topic, and says whether it learned
/// something.
fn learn_each(
    entry: &mut NodeTableEntry,
    from: &Endpoint,
    hashes: &[u64],
    Ghost(src): Ghost<NodeView>,
) -> (r: bool)
    requires
        old(entry)@.shaped(),
        src.shaped(),
        from.of(src),
    ensures
        final(entry)@ == learned_each(old(entry)@, src, hashes@),
        final(entry)@.shaped(),
        r == (final(entry)@.match_count != old(entry)@.match_count),
{
    let ghost before = entry@;
    let mut learned_any = false;
    let mut k: usize = 0;
    proof {
        assert(hashes@.subrange(0, 0) =~= Seq::empty());
    }
    while k < hashes.len()
        invariant
            k <= hashes@.len(),
            before.shaped(),
            src.shaped(),
            from.of(src),
            entry@.shaped(),
            entry@ == learned_each(before, src, hashes@.subrange(0, k as int)),
            entry@.match_count >= before.match_count,
            learned_any == (entry@.match_count != before.match_count),
        decreases hashes@.len() - k,
    {
        proof {
            assert(hashes@.subrange(0, k + 1).drop_last() =~= hashes@.subrange(0, k as int));
            lemma_learned(entry@, src, hashes@[k as int]);
        }
        if learn(entry, from, hashes[k], Ghost(src)) {
            learned_any = true;
        }
        k += 1;
    }
    proof {
        assert(hashes@.subrange(0, k as int) =~= hashes@);
    }
    learned_any
}

/// Those matches whose node is active.
fn keep_active(ms: &[MatchEntry], table: &[NodeTableEntry]) -> (r: Vec<MatchEntry>)
    ensures
        r@ == with_active_node(ms@, discovery_shm::table_view(table@)),
{
    let ghost view = discovery_shm::table_view(table@);
    let mut r: Vec<MatchEntry> = Vec::new();
    let mut i: usize = 0;
    proof {
        assert(ms@.subrange(0, 0) =~= Seq::empty());
    }
    while i < ms.len()
        invariant
            i <= ms@.len(),
            view == discovery_shm::table_view(table@),
            r@ == with_active_node(ms@.subrange(0, i as int), view),
        decreases ms@.len() - i,
    {
        proof {
            assert(ms@.subrange(0, i + 1).drop_last() =~= ms@.subrange(0, i as int));
            discovery_shm::lemma_slot_of_node(view, ms@[i as int].node_id);
        }
        match position_of_node(table, ms[i].node_id) {
            Some(k) => {
                assert(view[k as int] == table@[k as int]@);
                if table[k].state == SlotState::Active.value() {
                    r.push(ms[i]);
                }
            },
            None => {},
        }
        i += 1;
    }
    proof {
        assert(ms@.subrange(0, i as int) =~= ms@);
    }
    r
}

/// Writes `ms` over the front of the slot's match list.
fn set_matches(entry: &mut NodeTableEntry, ms: &[MatchEntry])
    requires
        old(entry)@.shaped(),
        ms@.len() <= MAX_MATCHES,
    ensures
        final(entry)@ == (NodeView {
            remote_matches: overwritten(old(entry)@.remote_matches, 0, ms@),
            match_count: ms@.len() as u32,
            response_gen: match_list::next_generation(old(entry)@.response_gen),
            ..old(entry)@
        }),
{
    let ghost before = entry@;
    let mut k: usize = 0;
    while k < ms.len()
        invariant
            k <= ms@.len() <= MAX_MATCHES,
            before.shaped(),
            entry@ == (NodeView { remote_matches: entry@.remote_matches, ..before }),
            entry.remote_matches@.len() == MAX_MATCHES,
            forall|j: int| 0 <= j < k ==> (#[trigger] entry.remote_matches@[j]) == ms@[j],
            forall|j: int|
                k <= j < MAX_MATCHES ==> (#[trigger] entry.remote_matches@[j])
                    == before.remote_matches[j],
        decreases ms@.len() - k,
    {
        let ghost prior = entry@;
        entry.remote_matches[k] = ms[k];
        proof {
            assert(entry@ =~= NodeView { remote_matches: entry.remote_matches@, ..prior });
        }
        k += 1;
    }
    proof {
        assert(entry.remote_matches@ =~= overwritten(before.remote_matches, 0, ms@));
    }
    entry.match_count = ms.len() as u32;
    entry.response_gen = entry.response_gen.wrapping_add(1);
    proof {
        assert(entry@ =~= NodeView {
            remote_matches: overwritten(before.remote_matches, 0, ms@),
            match_count: ms@.len() as u32,
            response_gen: match_list::next_generation(before.response_gen),
            ..before
        });
    }
}

/// Registers the node in slot `i`.
#[verifier::rlimit(40)]
fn register_node(table: &mut Vec<NodeTableEntry>, i: usize)
    requires
        i < old(table)@.len(),
        discovery_shm::table_shaped(discovery_shm::table_view(old(table)@)),
        table_counts_fit(discovery_shm::table_view(old(table)@)),
        old(table)@[i as int].state == SlotState::Pending.spec_value(),
    ensures
        discovery_shm::table_view(final(table)@) == registered(
            discovery_shm::table_view(old(table)@),
            i as int,
        ),
{
    let ghost before = discovery_shm::table_view(table@);
    let ghost n = before.len() as int;
    assert(before[i as int] == table@[i as int]@);
    table[i].state = SlotState::Active.value();
    let ghost started = discovery_shm::table_view(table@);
    proof {
        assert(started =~= before.update(
            i as int,
            NodeView { state: SlotState::Active.spec_value(), ..before[i as int] },
        ));
        assert forall|k: int| 0 <= k < n implies (#[trigger] started[k]).shaped() by {
            assert(before[k].shaped());
        }
        assert forall|k: int|
            0 <= k < n && (#[trigger] started[k]).state
                == SlotState::Active.spec_value() implies started[k].counts_fit() by {
            assert(before[k].counts_fit());
        }
        assert(met_slots(started, i as int, 0) =~= started);
    }
    let me = endpoint_of(&table[i]);
    let mut own: Vec<MatchEntry> = Vec::new();
    let mut j: usize = 0;
    while j < table.len()
        invariant
            i < table@.len(),
            j <= table@.len(),
            table@.len() == n == started.len(),
            forall|k: int| 0 <= k < n ==> (#[trigger] started[k]).shaped(),
            forall|k: int|
                0 <= k < n && (#[trigger] started[k]).state == SlotState::Active.spec_value()
                    ==> started[k].counts_fit(),
            started[i as int].state == SlotState::Active.spec_value(),
            me.of(started[i as int]),
            own@ == gathered(started, i as int, j as int),
            discovery_shm::table_view(table@) == met_slots(started, i as int, j as int),
        decreases table@.len() - j,
    {
        let ghost view = discovery_shm::table_view(table@);
        let ghost peer_view = started[j as int];
        let ghost me_view = started[i as int];
        proof {
            assert(view[j as int] == table@[j as int]@);
            assert(view[i as int] == table@[i as int]@);
            assert(view[j as int] == peer_view);
            assert(view[i as int] == me_view);
            assert(peer_view.shaped() && me_view.shaped());
        }
        let ghost prior = table@;
        if j != i && table[j].state == SlotState::Active.value() && table[j].domain_id
            == table[i].domain_id {
            let peer = endpoint_of(&table[j]);
            let taken = hashes_served(&table[j], &table[i]);
            gather_all(&mut own, &peer, &taken, Ghost(peer_view));
            let given = hashes_served(&table[i], &table[j]);
            tell_each(&mut table[j], &me, &given, Ghost(me_view));
            gather_missing(&mut own, &peer, &given, Ghost(peer_view));
        }
        proof {
            let next = met_slots(started, i as int, j + 1);
            assert forall|k: int| 0 <= k < n implies (#[trigger] table@[k])@ == next[k] by {
                if k != j {
                    assert(table@[k] == prior[k]);
                    assert(view[k] == prior[k]@);
                }
            }
            assert(discovery_shm::table_view(table@) =~= next);
        }
        j += 1;
    }
    let ghost met = met_slots(started, i as int, n);
    let valid = keep_active(&own, table);
    proof {
        lemma_gathered_len(started, i as int, n);
        lemma_with_active_node_len(own@, met);
        assert(met[i as int] == table@[i as int]@);
        assert(met[i as int] == started[i as int]);
    }
    set_matches(&mut table[i], &valid);
    proof {
        assert(discovery_shm::table_view(table@) =~= registered(before, i as int));
    }
}

/// Registers every node that waits for it, and says whether there was one.
pub fn process_pending_registrations(shm: &mut ShmDiscovery) -> (changed: bool)
    requires
        old(shm).wf(),
        table_counts_fit(old(shm).table()),
    ensures
        final(shm).wf(),
        final(shm).header == old(shm).header,
        final(shm).table() == all_registered(old(shm).table(), old(shm).table().len() as int),
        changed == any_pending(old(shm).table()),
{
    let ghost before = shm.table();
    let ghost n = before.len() as int;
    let mut changed = false;
    let mut i: usize = 0;
    while i < shm.node_table.len()
        invariant
            i <= shm.node_table@.len(),
            shm.node_table@.len() == n == before.len(),
            shm.header == old(shm).header,
            discovery_shm::table_shaped(before),
            table_counts_fit(before),
            shm.table() == all_registered(before, i as int),
            changed == (exists|k: int|
                0 <= k < i && (#[trigger] before[k]).state == SlotState::Pending.spec_value()),
        decreases shm.node_table@.len() - i,
    {
        proof {
            lemma_all_registered(before, i as int);
            assert(shm.table()[i as int] == shm.node_table@[i as int]@);
            assert(all_registered(before, i as int)[i as int].state == before[i as int].state);
        }
        if shm.node_table[i].state == SlotState::Pending.value() {
            register_node(&mut shm.node_table, i);
            changed = true;
            proof {
                lemma_registered(all_registered(before, i as int), i as int);
                assert(before[i as int].state == SlotState::Pending.spec_value());
            }
        }
        i += 1;
    }
    proof {
        lemma_all_registered(before, n);
    }
    changed
}

/// Whether the topics of slot `i` are linked to the subscriptions of slot `j`.
pub open spec fn links(table: Seq<NodeView>, i: int, j: int) -> bool {
    &&& table[i].state == SlotState::Active.spec_value()
    &&& table[i].pub_count != 0
    &&& meets(table, i, j)
    &&& table[j].sub_count != 0
}

/// The table once publisher `i` and subscriber `j` learned of each other, for each
/// topic that the subscriber takes.
pub open spec fn linked_pair(table: Seq<NodeView>, i: int, j: int) -> Seq<NodeView> {
    let hashes = served_hashes(table[i].pubs(), table[j].subs());
    table.update(j, stepped(table[j], learned_each(table[j], table[i], hashes))).update(
        i,
        stepped(table[i], learned_each(table[i], table[j], hashes)),
    )
}

/// The table once publisher `i` is linked with the first `n` slots.
pub open spec fn linked_row(table: Seq<NodeView>, i: int, n: int) -> Seq<NodeView>
    decreases n,
{
    if n <= 0 {
        table
    } else {
        let prev = linked_row(table, i, n - 1);
        if links(prev, i, n - 1) {
            linked_pair(prev, i, n - 1)
        } else {
            prev
        }
    }
}

/// The table once each of the first `n` slots is linked with every slot.
pub open spec fn linked_rows(table: Seq<NodeView>, n: int) -> Seq<NodeView>
    decreases n,
{
    if n <= 0 {
        table
    } else {
        linked_row(linked_rows(table, n - 1), n - 1, table.len() as int)
    }
}

/// The table once every publisher is linked with every subscriber of its domain.
pub open spec fn linked(table: Seq<NodeView>) -> Seq<NodeView> {
    linked_rows(table, table.len() as int)
}

/// The nodes in active slots, in table order.
pub open spec fn active_ids(table: Seq<NodeView>) -> Seq<u64>
    decreases table.len(),
{
    if table.len() == 0 {
        Seq::empty()
    } else {
        let rest = active_ids(table.drop_last());
        let last = table.last();
        if last.state == SlotState::Active.spec_value() && last.node_id != 0 {
            rest.push(last.node_id)
        } else {
            rest
        }
    }
}

/// Whether a slot has another number of matches than before.
pub open spec fn any_recounted(before: Seq<NodeView>, after: Seq<NodeView>) -> bool {
    exists|k: int|
        0 <= k < before.len() && (#[trigger] before[k]).match_count != after[k].match_count
}

/// What linking keeps: everything but matches, which only grow in number, and
/// generations.
pub open spec fn only_matches_grew(before: Seq<NodeView>, after: Seq<NodeView>) -> bool {
    &&& after.len() == before.len()
    &&& forall|k: int|
        #![trigger after[k]]
        0 <= k < before.len() ==> {
            &&& after[k].shaped()
            &&& after[k].match_count >= before[k].match_count
            &&& after[k] == (NodeView {
                remote_matches: after[k].remote_matches,
                match_count: after[k].match_count,
                response_gen: after[k].response_gen,
                ..before[k]
            })
        }
}

proof fn lemma_linked_pair(table: Seq<NodeView>, i: int, j: int)
    requires
        discovery_shm::table_shaped(table),
        0 <= i < table.len(),
        0 <= j < table.len(),
        i != j,
    ensures
        only_matches_grew(table, linked_pair(table, i, j)),
{
    let hashes = served_hashes(table[i].pubs(), table[j].subs());
    assert(table[i].shaped() && table[j].shaped());
    lemma_learned_each(table[j], table[i], hashes);
    lemma_learned_each(table[i], table[j], hashes);
    assert forall|k: int| 0 <= k < table.len() implies (#[trigger] table[k]).shaped() by {}
}

proof fn lemma_only_matches_grew_trans(a: Seq<NodeView>, b: Seq<NodeView>, c: Seq<NodeView>)
    requires
        only_matches_grew(a, b),
        only_matches_grew(b, c),
    ensures
        only_matches_grew(a, c),
{
    assert forall|k: int|
        #![trigger c[k]]
        0 <= k < a.len() implies {
        &&& c[k].shaped()
        &&& c[k].match_count >= a[k].match_count
        &&& c[k] == (NodeView {
            remote_matches: c[k].remote_matches,
            match_count: c[k].match_count,
            response_gen: c[k].response_gen,
            ..a[k]
        })
    } by {
        assert(b[k].shaped());
        assert(c[k].shaped());
    }
}

proof fn lemma_linked_row(table: Seq<NodeView>, i: int, n: int)
    requires
        discovery_shm::table_shaped(table),
        0 <= i < table.len(),
        n <= table.len(),
    ensures
        only_matches_grew(table, linked_row(table, i, n)),
    decreases n,
{
    if n <= 0 {
        assert forall|k: int| 0 <= k < table.len() implies (#[trigger] table[k]).shaped() by {}
    } else {
        let prev = linked_row(table, i, n - 1);
        lemma_linked_row(table, i, n - 1);
        lemma_grew_shaped(table, prev);
        if links(prev, i, n - 1) {
            lemma_linked_pair(prev, i, n - 1);
            lemma_only_matches_grew_trans(table, prev, linked_pair(prev, i, n - 1));
        }
    }
}

proof fn lemma_grew_shaped(before: Seq<NodeView>, after: Seq<NodeView>)
    requires
        only_matches_grew(before, after),
    ensures
        discovery_shm::table_shaped(after),
{
    assert forall|k: int| 0 <= k < after.len() implies (#[trigger] after[k]).shaped() by {}
}

/// Linking keeps everything but matches, which only grow in number, and generations.
pub proof fn lemma_linked_rows(table: Seq<NodeView>, n: int)
    requires
        discovery_shm::table_shaped(table),
        n <= table.len(),
    ensures
        only_matches_grew(table, linked_rows(table, n)),
    decreases n,
{
    if n <= 0 {
        assert forall|k: int| 0 <= k < table.len() implies (#[trigger] table[k]).shaped() by {}
    } else {
        let prev = linked_rows(table, n - 1);
        lemma_linked_rows(table, n - 1);
        lemma_grew_shaped(table, prev);
        lemma_linked_row(prev, n - 1, table.len() as int);
        lemma_only_matches_grew_trans(table, prev, linked_row(prev, n - 1, table.len() as int));
    }
}

/// Links publisher `i` with subscriber `j`, and says whether one learned something.
fn link_pair(table: &mut Vec<NodeTableEntry>, i: usize, j: usize) -> (changed: bool)
    requires
        i < old(table)@.len(),
        j < old(table)@.len(),
        i != j,
        discovery_shm::table_shaped(discovery_shm::table_view(old(table)@)),
        old(table)@[i as int]@.counts_fit(),
        old(table)@[j as int]@.counts_fit(),
    ensures
        discovery_shm::table_view(final(table)@) == linked_pair(
            discovery_shm::table_view(old(table)@),
            i as int,
            j as int,
        ),
        changed == any_recounted(
            discovery_shm::table_view(old(table)@),
            discovery_shm::table_view(final(table)@),
        ),
{
    let ghost before = discovery_shm::table_view(table@);
    let ghost a = before[i as int];
    let ghost b = before[j as int];
    proof {
        assert(a == table@[i as int]@ && b == table@[j as int]@);
        assert(a.shaped() && b.shaped());
    }
    let publisher = endpoint_of(&table[i]);
    let subscriber = endpoint_of(&table[j]);
    let hashes = hashes_served(&table[i], &table[j]);
    let j_changed = learn_each(&mut table[j], &publisher, &hashes, Ghost(a));
    let i_changed = learn_each(&mut table[i], &subscriber, &hashes, Ghost(b));
    if j_changed {
        let ghost prior = table@[j as int]@;
        table[j].response_gen = table[j].response_gen.wrapping_add(1);
        proof {
            assert(table@[j as int]@ =~= stepped(b, prior));
        }
    }
    if i_changed {
        let ghost prior = table@[i as int]@;
        table[i].response_gen = table[i].response_gen.wrapping_add(1);
        proof {
            assert(table@[i as int]@ =~= stepped(a, prior));
        }
    }
    proof {
        let after = discovery_shm::table_view(table@);
        assert(after =~= linked_pair(before, i as int, j as int));
        if j_changed {
            assert(before[j as int].match_count != after[j as int].match_count);
        }
        if i_changed {
            assert(before[i as int].match_count != after[i as int].match_count);
        }
    }
    j_changed || i_changed
}

/// Growth that some slot shows early is still shown later.
proof fn lemma_recounted(a: Seq<NodeView>, b: Seq<NodeView>, c: Seq<NodeView>)
    requires
        only_matches_grew(a, b),
        only_matches_grew(b, c),
    ensures
        any_recounted(a, c) == (any_recounted(a, b) || any_recounted(b, c)),
{
    assert forall|k: int| 0 <= k < a.len() implies c[k].match_count >= b[k].match_count
        >= (#[trigger] a[k]).match_count by {
        assert(b[k].shaped());
        assert(c[k].shaped());
    }
    if any_recounted(a, b) {
        let k = choose|k: int|
            0 <= k < a.len() && (#[trigger] a[k]).match_count != b[k].match_count;
        assert(a[k].match_count != c[k].match_count);
    }
    if any_recounted(b, c) {
        let k = choose|k: int|
            0 <= k < b.len() && (#[trigger] b[k]).match_count != c[k].match_count;
        assert(a[k].match_count != c[k].match_count);
    }
    if any_recounted(a, c) {
        let k = choose|k: int|
            0 <= k < a.len() && (#[trigger] a[k]).match_count != c[k].match_count;
        if a[k].match_count == b[k].match_count {
            assert(b[k].match_count != c[k].match_count);
        }
    }
}

/// Links publisher `i` with every subscriber of its domain.
fn link_row(table: &mut Vec<NodeTableEntry>, i: usize) -> (changed: bool)
    requires
        i < old(table)@.len(),
        discovery_shm::table_shaped(discovery_shm::table_view(old(table)@)),
        table_counts_fit(discovery_shm::table_view(old(table)@)),
    ensures
        discovery_shm::table_view(final(table)@) == linked_row(
            discovery_shm::table_view(old(table)@),
            i as int,
            old(table)@.len() as int,
        ),
        changed == any_recounted(
            discovery_shm::table_view(old(table)@),
            discovery_shm::table_view(final(table)@),
        ),
{
    let ghost before = discovery_shm::table_view(table@);
    let ghost n = before.len() as int;
    let mut changed = false;
    let mut j: usize = 0;
    while j < table.len()
        invariant
            i < n,
            j <= n,
            table@.len() == n == before.len(),
            discovery_shm::table_shaped(before),
            table_counts_fit(before),
            discovery_shm::table_view(table@) == linked_row(before, i as int, j as int),
            changed == any_recounted(before, discovery_shm::table_view(table@)),
        decreases n - j,
    {
        let ghost view = discovery_shm::table_view(table@);
        proof {
            lemma_linked_row(before, i as int, j as int);
            lemma_grew_shaped(before, view);
            assert(view[i as int] == table@[i as int]@);
            assert(view[j as int] == table@[j as int]@);
            assert(view[i as int].pub_count == before[i as int].pub_count);
            assert(view[j as int].pub_count == before[j as int].pub_count);
        }
        if j != i && table[i].state == SlotState::Active.value() && table[i].pub_count != 0
            && table[j].state == SlotState::Active.value() && table[j].domain_id
            == table[i].domain_id && table[j].sub_count != 0 {
            proof {
                assert(before[i as int].counts_fit());
                assert(before[j as int].counts_fit());
                lemma_linked_pair(view, i as int, j as int);
            }
            let pair_changed = link_pair(table, i, j);
            proof {
                lemma_recounted(before, view, discovery_shm::table_view(table@));
            }
            changed = changed || pair_changed;
        }
        j += 1;
    }
    changed
}

/// The nodes in active slots.
fn active_node_ids(table: &[NodeTableEntry]) -> (r: Vec<u64>)
    ensures
        r@ == active_ids(discovery_shm::table_view(table@)),
{
    let ghost view = discovery_shm::table_view(table@);
    let mut ids: Vec<u64> = Vec::new();
    let mut i: usize = 0;
    proof {
        assert(view.subrange(0, 0) =~= Seq::empty());
    }
    while i < table.len()
        invariant
            i <= table@.len(),
            view == discovery_shm::table_view(table@),
            ids@ == active_ids(view.subrange(0, i as int)),
        decreases table@.len() - i,
    {
        proof {
            assert(view.subrange(0, i + 1).drop_last() =~= view.subrange(0, i as int));
            assert(view.subrange(0, i + 1).last() == table@[i as int]@);
        }
        if table[i].state == SlotState::Active.value() && table[i].node_id != 0 {
            ids.push(table[i].node_id);
        }
        i += 1;
    }
    proof {
        assert(view.subrange(0, i as int) =~= view);
    }
    ids
}

/// The table once its matches are renewed: every publisher is linked with every
/// subscriber of its domain, and the matches of nodes that are not active are gone.
pub open spec fn renewed(table: Seq<NodeView>) -> Seq<NodeView> {
    match_list::drop_matches_everywhere(linked(table), active_ids(table), true, false)
}

/// Links every publisher with every subscriber of its domain, then drops the matches
/// of nodes that are not active. Says whether anything changed.
pub fn process_topic_updates(shm: &mut ShmDiscovery) -> (changed: bool)
    requires
        old(shm).wf(),
        table_counts_fit(old(shm).table()),
    ensures
        final(shm).wf(),
        final(shm).header == old(shm).header,
        final(shm).table() == renewed(old(shm).table()),
        changed == (any_recounted(old(shm).table(), linked(old(shm).table()))
            || match_list::any_stepped(linked(old(shm).table()), final(shm).table())),
{
    let ghost before = shm.table();
    let ghost n = before.len() as int;
    let mut changed = false;
    let mut i: usize = 0;
    while i < shm.node_table.len()
        invariant
            i <= n,
            shm.node_table@.len() == n == before.len(),
            shm.header == old(shm).header,
            discovery_shm::table_shaped(before),
            table_counts_fit(before),
            shm.table() == linked_rows(before, i as int),
            changed == any_recounted(before, shm.table()),
        decreases n - i,
    {
        let ghost view = shm.table();
        proof {
            lemma_linked_rows(before, i as int);
            lemma_grew_shaped(before, view);
            assert forall|k: int|
                0 <= k < view.len() && ((#[trigger] view[k]).state
                    == SlotState::Pending.spec_value() || view[k].state
                    == SlotState::Active.spec_value()) implies view[k].counts_fit() by {
                assert(before[k].counts_fit());
            }
            lemma_linked_row(view, i as int, n);
        }
        let row_changed = link_row(&mut shm.node_table, i);
        proof {
            lemma_recounted(before, view, shm.table());
        }
        changed = changed || row_changed;
        i += 1;
    }
    proof {
        lemma_linked_rows(before, n);
        lemma_grew_shaped(before, shm.table());
        lemma_active_ids_kept(before, shm.table());
    }
    let ids = active_node_ids(&shm.node_table);
    let dropped = drop_table_matches(&mut shm.node_table, &ids, true, false);
    assert(shm.table().len() == n);
    changed || dropped
}

proof fn lemma_active_ids_kept(before: Seq<NodeView>, after: Seq<NodeView>)
    requires
        only_matches_grew(before, after),
    ensures
        active_ids(after) == active_ids(before),
    decreases before.len(),
{
    if before.len() > 0 {
        let b = before.drop_last();
        let a = after.drop_last();
        assert forall|k: int|
            #![trigger a[k]]
            0 <= k < b.len() implies {
            &&& a[k].shaped()
            &&& a[k].match_count >= b[k].match_count
            &&& a[k] == (NodeView {
                remote_matches: a[k].remote_matches,
                match_count: a[k].match_count,
                response_gen: a[k].response_gen,
                ..b[k]
            })
        } by {
            assert(after[k].shaped());
        }
        lemma_active_ids_kept(b, a);
        assert(after[after.len() - 1].shaped());
    }
}

/// The matches that a slot counts.
pub open spec fn counted(e: NodeView) -> Seq<MatchEntry> {
    e.remote_matches.subrange(0, match_list::match_limit(e))
}

/// Whether a slot knows every address of `from` for a topic.
pub open spec fn knows(e: NodeView, from: NodeView, hash: u64) -> bool {
    forall|k: int|
        0 <= k < reach(from).len() ==> has_match(
            counted(e),
            from.node_id,
            hash,
            #[trigger] reach(from)[k],
        )
}

/// Whether a slot knows every address of `from` for each topic.
pub open spec fn knows_each(e: NodeView, from: NodeView, hashes: Seq<u64>) -> bool {
    forall|h: int| 0 <= h < hashes.len() ==> knows(e, from, #[trigger] hashes[h])
}

/// Whether publisher `i` and subscriber `j` know each other, for each topic that the
/// subscriber takes.
pub open spec fn acquainted(table: Seq<NodeView>, i: int, j: int) -> bool {
    let hashes = served_hashes(table[i].pubs(), table[j].subs());
    knows_each(table[j], table[i], hashes) && knows_each(table[i], table[j], hashes)
}

/// Whether a slot's list has room for all addresses of one more node.
pub open spec fn roomy(e: NodeView) -> bool {
    e.match_count <= MAX_MATCHES - MAX_QUIC_ADDRS
}

/// Whether every active slot's list has room for all addresses of one more node.
pub open spec fn table_roomy(table: Seq<NodeView>) -> bool {
    forall|k: int|
        0 <= k < table.len() && (#[trigger] table[k]).state == SlotState::Active.spec_value()
            ==> roomy(table[k])
}

/// Whether a slot's matches go on from those that it had.
pub open spec fn goes_on(before: NodeView, after: NodeView) -> bool {
    &&& before.match_count <= after.match_count
    &&& forall|m: int|
        0 <= m < before.match_count && m < MAX_MATCHES ==> (#[trigger] after.remote_matches[m])
            == before.remote_matches[m]
}

/// Whether every slot's matches go on from those that it had.
pub open spec fn table_goes_on(before: Seq<NodeView>, after: Seq<NodeView>) -> bool {
    &&& only_matches_grew(before, after)
    &&& forall|k: int| 0 <= k < before.len() ==> goes_on(before[k], #[trigger] after[k])
}

/// An address is known, or new.
proof fn lemma_fresh_covers(
    existing: Seq<MatchEntry>,
    node_id: u64,
    hash: u64,
    port: u16,
    addrs: Seq<[u8; 4]>,
    k: int,
)
    requires
        0 <= k < addrs.len(),
    ensures
        has_match(existing, node_id, hash, addrs[k]) || has_match(
            fresh_matches(existing, node_id, hash, port, addrs),
            node_id,
            hash,
            addrs[k],
        ),
    decreases addrs.len(),
{
    let fresh = fresh_matches(existing, node_id, hash, port, addrs);
    let prev = fresh_matches(existing, node_id, hash, port, addrs.drop_last());
    if k < addrs.len() - 1 {
        lemma_fresh_covers(existing, node_id, hash, port, addrs.drop_last(), k);
        assert(addrs.drop_last()[k] == addrs[k]);
        if has_match(prev, node_id, hash, addrs[k]) {
            let m = choose|m: int|
                0 <= m < prev.len() && (#[trigger] prev[m]).node_id == node_id && prev[m].topic_hash
                    == hash && prev[m].addr == addrs[k];
            assert(fresh[m] == prev[m]);
        }
    } else if !has_match(existing, node_id, hash, addrs[k]) {
        assert(fresh[fresh.len() - 1].addr == addrs[k]);
    }
}

/// Where every address is known, none is new.
proof fn lemma_nothing_fresh(
    existing: Seq<MatchEntry>,
    node_id: u64,
    hash: u64,
    port: u16,
    addrs: Seq<[u8; 4]>,
)
    requires
        forall|k: int|
            0 <= k < addrs.len() ==> has_match(existing, node_id, hash, #[trigger] addrs[k]),
    ensures
        fresh_matches(existing, node_id, hash, port, addrs).len() == 0,
    decreases addrs.len(),
{
    if addrs.len() > 0 {
        let d = addrs.drop_last();
        assert forall|k: int| 0 <= k < d.len() implies has_match(
            existing,
            node_id,
            hash,
            #[trigger] d[k],
        ) by {
            assert(d[k] == addrs[k]);
        }
        lemma_nothing_fresh(existing, node_id, hash, port, d);
        assert(has_match(existing, node_id, hash, addrs[addrs.len() - 1]));
    }
}

/// Who knows everything learns nothing.
proof fn lemma_learns_nothing(e: NodeView, from: NodeView, hash: u64)
    requires
        e.shaped(),
        from.shaped(),
        knows(e, from, hash),
    ensures
        learned(e, from, hash) == e,
{
    let addrs = first_addrs(reach(from), room(e.match_count as int));
    assert forall|k: int| 0 <= k < addrs.len() implies has_match(
        counted(e),
        from.node_id,
        hash,
        #[trigger] addrs[k],
    ) by {
        assert(addrs[k] == reach(from)[k]);
    }
    lemma_nothing_fresh(counted(e), from.node_id, hash, from.quic_port, addrs);
}

proof fn lemma_learns_nothing_each(e: NodeView, from: NodeView, hashes: Seq<u64>)
    requires
        e.shaped(),
        from.shaped(),
        knows_each(e, from, hashes),
    ensures
        learned_each(e, from, hashes) == e,
    decreases hashes.len(),
{
    if hashes.len() > 0 {
        let d = hashes.drop_last();
        assert forall|h: int| 0 <= h < d.len() implies knows(e, from, #[trigger] d[h]) by {
            assert(d[h] == hashes[h]);
        }
        lemma_learns_nothing_each(e, from, d);
        assert(knows(e, from, hashes[hashes.len() - 1]));
        lemma_learns_nothing(e, from, hashes.last());
    }
}

/// Who learns keeps what it knew, and then knows what it learned.
pub(crate) proof fn lemma_learns(e: NodeView, from: NodeView, hash: u64)
    requires
        e.shaped(),
        from.shaped(),
        roomy(e),
    ensures
        goes_on(e, learned(e, from, hash)),
        learned(e, from, hash).match_count <= MAX_MATCHES,
        knows(learned(e, from, hash), from, hash),
{
    let after = learned(e, from, hash);
    let count = e.match_count as int;
    let addrs = first_addrs(reach(from), room(count));
    let new = fresh_matches(counted(e), from.node_id, hash, from.quic_port, addrs);
    lemma_fresh_len(counted(e), from.node_id, hash, from.quic_port, addrs);
    assert(addrs == reach(from));
    assert forall|k: int| 0 <= k < reach(from).len() implies has_match(
        counted(after),
        from.node_id,
        hash,
        #[trigger] reach(from)[k],
    ) by {
        lemma_fresh_covers(counted(e), from.node_id, hash, from.quic_port, addrs, k);
        let a = reach(from)[k];
        if has_match(counted(e), from.node_id, hash, a) {
            let m = choose|m: int|
                0 <= m < counted(e).len() && (#[trigger] counted(e)[m]).node_id == from.node_id
                    && counted(e)[m].topic_hash == hash && counted(e)[m].addr == a;
            assert(counted(after)[m] == counted(e)[m]);
        } else {
            let m = choose|m: int|
                0 <= m < new.len() && (#[trigger] new[m]).node_id == from.node_id
                    && new[m].topic_hash == hash && new[m].addr == a;
            assert(counted(after)[count + m] == new[m]);
        }
    }
}

/// What a slot knows it goes on knowing.
pub(crate) proof fn lemma_goes_on_knowing(e: NodeView, after: NodeView, from: NodeView, hash: u64)
    requires
        e.shaped(),
        after.shaped(),
        goes_on(e, after),
        knows(e, from, hash),
    ensures
        knows(after, from, hash),
{
    assert forall|k: int| 0 <= k < reach(from).len() implies has_match(
        counted(after),
        from.node_id,
        hash,
        #[trigger] reach(from)[k],
    ) by {
        let a = reach(from)[k];
        let m = choose|m: int|
            0 <= m < counted(e).len() && (#[trigger] counted(e)[m]).node_id == from.node_id
                && counted(e)[m].topic_hash == hash && counted(e)[m].addr == a;
        assert(after.remote_matches[m] == e.remote_matches[m]);
        assert(counted(after)[m] == counted(e)[m]);
    }
}

proof fn lemma_learns_each(e: NodeView, from: NodeView, hashes: Seq<u64>)
    requires
        e.shaped(),
        from.shaped(),
        roomy(learned_each(e, from, hashes)),
    ensures
        goes_on(e, learned_each(e, from, hashes)),
        knows_each(learned_each(e, from, hashes), from, hashes),
    decreases hashes.len(),
{
    if hashes.len() > 0 {
        let d = hashes.drop_last();
        let prev = learned_each(e, from, d);
        let after = learned_each(e, from, hashes);
        lemma_learned_each(e, from, d);
        lemma_learned(prev, from, hashes.last());
        lemma_learns_each(e, from, d);
        lemma_learns(prev, from, hashes.last());
        assert(goes_on(e, after)) by {
            assert forall|m: int| 0 <= m < e.match_count && m < MAX_MATCHES implies (
            #[trigger] after.remote_matches[m]) == e.remote_matches[m] by {
                assert(prev.remote_matches[m] == e.remote_matches[m]);
            }
        }
        assert forall|h: int| 0 <= h < hashes.len() implies knows(
            after,
            from,
            #[trigger] hashes[h],
        ) by {
            if h < d.len() {
                assert(knows(prev, from, d[h]));
                lemma_goes_on_knowing(prev, after, from, hashes[h]);
            }
        }
    }
}

/// Whether two slots tell of the same node at the same addresses.
pub open spec fn same_reach(a: NodeView, b: NodeView) -> bool {
    a.node_id == b.node_id && reach(a) == reach(b)
}

proof fn lemma_knows_each_on(
    e: NodeView,
    after: NodeView,
    from: NodeView,
    from_after: NodeView,
    hashes: Seq<u64>,
)
    requires
        e.shaped(),
        after.shaped(),
        goes_on(e, after),
        same_reach(from, from_after),
        knows_each(e, from, hashes),
    ensures
        knows_each(after, from_after, hashes),
{
    assert forall|h: int| 0 <= h < hashes.len() implies knows(
        after,
        from_after,
        #[trigger] hashes[h],
    ) by {
        lemma_goes_on_knowing(e, after, from, hashes[h]);
    }
}

/// Who is acquainted stays so.
proof fn lemma_stay_acquainted(before: Seq<NodeView>, after: Seq<NodeView>, i: int, j: int)
    requires
        discovery_shm::table_shaped(before),
        table_goes_on(before, after),
        0 <= i < before.len(),
        0 <= j < before.len(),
        acquainted(before, i, j),
    ensures
        acquainted(after, i, j),
{
    let hashes = served_hashes(before[i].pubs(), before[j].subs());
    assert(before[i].shaped() && before[j].shaped() && after[i].shaped() && after[j].shaped());
    assert(after[i].pubs() == before[i].pubs() && after[j].subs() == before[j].subs());
    assert(goes_on(before[i], after[i]) && goes_on(before[j], after[j]));
    lemma_knows_each_on(before[j], after[j], before[i], after[i], hashes);
    lemma_knows_each_on(before[i], after[i], before[j], after[j], hashes);
}

proof fn lemma_goes_on_trans(a: Seq<NodeView>, b: Seq<NodeView>, c: Seq<NodeView>)
    requires
        table_goes_on(a, b),
        table_goes_on(b, c),
    ensures
        table_goes_on(a, c),
{
    lemma_only_matches_grew_trans(a, b, c);
    assert forall|k: int| 0 <= k < a.len() implies goes_on(a[k], #[trigger] c[k]) by {
        assert(goes_on(a[k], b[k]));
        assert(goes_on(b[k], c[k]));
        assert forall|m: int| 0 <= m < a[k].match_count && m < MAX_MATCHES implies (
        #[trigger] c[k].remote_matches[m]) == a[k].remote_matches[m] by {
            assert(b[k].remote_matches[m] == a[k].remote_matches[m]);
        }
    }
}

/// Lists that have room in the end had room before.
proof fn lemma_roomy_before(before: Seq<NodeView>, after: Seq<NodeView>)
    requires
        only_matches_grew(before, after),
        table_roomy(after),
    ensures
        table_roomy(before),
{
    assert forall|k: int|
        0 <= k < before.len() && (#[trigger] before[k]).state
            == SlotState::Active.spec_value() implies roomy(before[k]) by {
        assert(after[k].shaped());
        assert(roomy(after[k]));
    }
}

proof fn lemma_pair_acquaints(table: Seq<NodeView>, i: int, j: int)
    requires
        discovery_shm::table_shaped(table),
        0 <= i < table.len(),
        0 <= j < table.len(),
        links(table, i, j),
        table_roomy(linked_pair(table, i, j)),
    ensures
        table_goes_on(table, linked_pair(table, i, j)),
        acquainted(linked_pair(table, i, j), i, j),
{
    let hashes = served_hashes(table[i].pubs(), table[j].subs());
    let after = linked_pair(table, i, j);
    lemma_linked_pair(table, i, j);
    assert(table[i].shaped() && table[j].shaped());
    assert(after[i].shaped() && after[j].shaped());
    assert(roomy(after[i]) && roomy(after[j]));
    lemma_learned_each(table[j], table[i], hashes);
    lemma_learned_each(table[i], table[j], hashes);
    lemma_learns_each(table[j], table[i], hashes);
    lemma_learns_each(table[i], table[j], hashes);
    let ej = learned_each(table[j], table[i], hashes);
    let ei = learned_each(table[i], table[j], hashes);
    lemma_knows_each_on(ej, after[j], table[i], after[i], hashes);
    lemma_knows_each_on(ei, after[i], table[j], after[j], hashes);
}

proof fn lemma_row_acquaints(table: Seq<NodeView>, i: int, n: int)
    requires
        discovery_shm::table_shaped(table),
        0 <= i < table.len(),
        n <= table.len(),
        table_roomy(linked_row(table, i, n)),
    ensures
        table_goes_on(table, linked_row(table, i, n)),
        forall|j: int|
            0 <= j < n && links(table, i, j) ==> #[trigger] acquainted(
                linked_row(table, i, n),
                i,
                j,
            ),
    decreases n,
{
    let after = linked_row(table, i, n);
    if n <= 0 {
        assert forall|k: int| 0 <= k < table.len() implies (#[trigger] table[k]).shaped() by {}
    } else {
        let prev = linked_row(table, i, n - 1);
        lemma_linked_row(table, i, n - 1);
        lemma_grew_shaped(table, prev);
        lemma_linked_row(table, i, n);
        lemma_grew_shaped(table, after);
        assert(prev[i].shaped() && prev[n - 1].shaped());
        if links(prev, i, n - 1) {
            lemma_linked_pair(prev, i, n - 1);
            lemma_roomy_before(prev, after);
            lemma_row_acquaints(table, i, n - 1);
            lemma_pair_acquaints(prev, i, n - 1);
            lemma_goes_on_trans(table, prev, after);
            assert forall|j: int| 0 <= j < n && links(table, i, j) implies #[trigger] acquainted(
                after,
                i,
                j,
            ) by {
                if j < n - 1 {
                    assert(acquainted(prev, i, j));
                    lemma_stay_acquainted(prev, after, i, j);
                }
            }
        } else {
            lemma_row_acquaints(table, i, n - 1);
            assert(links(table, i, n - 1) == links(prev, i, n - 1));
            assert forall|j: int| 0 <= j < n && links(table, i, j) implies #[trigger] acquainted(
                after,
                i,
                j,
            ) by {
                assert(acquainted(prev, i, j));
            }
        }
    }
}

pub(crate) proof fn lemma_rows_acquaint(table: Seq<NodeView>, n: int)
    requires
        discovery_shm::table_shaped(table),
        n <= table.len(),
        table_roomy(linked_rows(table, n)),
    ensures
        table_goes_on(table, linked_rows(table, n)),
        forall|i: int, j: int|
            0 <= i < n && 0 <= j < table.len() && links(table, i, j) ==> #[trigger] acquainted(
                linked_rows(table, n),
                i,
                j,
            ),
    decreases n,
{
    let after = linked_rows(table, n);
    let len = table.len() as int;
    if n <= 0 {
        assert forall|k: int| 0 <= k < table.len() implies (#[trigger] table[k]).shaped() by {}
    } else {
        let prev = linked_rows(table, n - 1);
        lemma_linked_rows(table, n - 1);
        lemma_grew_shaped(table, prev);
        lemma_linked_row(prev, n - 1, len);
        lemma_roomy_before(prev, after);
        lemma_rows_acquaint(table, n - 1);
        lemma_row_acquaints(prev, n - 1, len);
        lemma_goes_on_trans(table, prev, after);
        assert forall|i: int, j: int|
            0 <= i < n && 0 <= j < len && links(table, i, j) implies #[trigger] acquainted(
            after,
            i,
            j,
        ) by {
            if i < n - 1 {
                assert(acquainted(prev, i, j));
                lemma_stay_acquainted(prev, after, i, j);
            } else {
                assert(prev[i].shaped() && prev[j].shaped());
                assert(links(prev, i, j));
            }
        }
    }
}

/// Where all who are to be linked are acquainted, linking changes nothing.
proof fn lemma_row_of_acquaintances(table: Seq<NodeView>, i: int, n: int)
    requires
        discovery_shm::table_shaped(table),
        0 <= i < table.len(),
        n <= table.len(),
        forall|j: int|
            0 <= j < table.len() && links(table, i, j) ==> #[trigger] acquainted(table, i, j),
    ensures
        linked_row(table, i, n) == table,
    decreases n,
{
    if n > 0 {
        lemma_row_of_acquaintances(table, i, n - 1);
        if links(table, i, n - 1) {
            let j = n - 1;
            let hashes = served_hashes(table[i].pubs(), table[j].subs());
            assert(acquainted(table, i, j));
            assert(table[i].shaped() && table[j].shaped());
            lemma_learns_nothing_each(table[j], table[i], hashes);
            lemma_learns_nothing_each(table[i], table[j], hashes);
            assert(linked_pair(table, i, j) =~= table);
        }
    }
}

proof fn lemma_rows_of_acquaintances(table: Seq<NodeView>, n: int)
    requires
        discovery_shm::table_shaped(table),
        n <= table.len(),
        forall|i: int, j: int|
            0 <= i < table.len() && 0 <= j < table.len() && links(table, i, j)
                ==> #[trigger] acquainted(table, i, j),
    ensures
        linked_rows(table, n) == table,
    decreases n,
{
    if n > 0 {
        lemma_rows_of_acquaintances(table, n - 1);
        lemma_row_of_acquaintances(table, n - 1, table.len() as int);
    }
}

/// The node of an active slot is among the active ones.
proof fn lemma_active_id_listed(table: Seq<NodeView>, k: int)
    requires
        0 <= k < table.len(),
        table[k].state == SlotState::Active.spec_value(),
        table[k].node_id != 0,
    ensures
        active_ids(table).contains(table[k].node_id),
    decreases table.len(),
{
    let rest = active_ids(table.drop_last());
    let all = active_ids(table);
    if k < table.len() - 1 {
        lemma_active_id_listed(table.drop_last(), k);
        let m = choose|m: int| 0 <= m < rest.len() && rest[m] == table[k].node_id;
        assert(all[m] == rest[m]);
    } else {
        assert(all[all.len() - 1] == table[k].node_id);
    }
}

/// Dropping matches of nodes that are not listed leaves what a slot knows of one that
/// is.
proof fn lemma_dropping_keeps_known(e: NodeView, from: NodeView, hash: u64, ids: Seq<u64>)
    requires
        e.shaped(),
        e.state == SlotState::Active.spec_value(),
        e.match_count <= MAX_MATCHES,
        ids.contains(from.node_id),
        knows(e, from, hash),
    ensures
        knows(match_list::drop_matches(e, ids, true, false), from, hash),
{
    let after = match_list::drop_matches(e, ids, true, false);
    let kept = match_list::kept(counted(e), ids, true);
    match_list::lemma_kept_len(counted(e), ids, true);
    if kept.len() < e.match_count {
        assert(counted(after) =~= kept);
        assert forall|k: int| 0 <= k < reach(from).len() implies has_match(
            counted(after),
            from.node_id,
            hash,
            #[trigger] reach(from)[k],
        ) by {
            let a = reach(from)[k];
            let m = choose|m: int|
                0 <= m < counted(e).len() && (#[trigger] counted(e)[m]).node_id == from.node_id
                    && counted(e)[m].topic_hash == hash && counted(e)[m].addr == a;
            match_list::law_kept_exactly(counted(e), ids, true, counted(e)[m]);
            let p = choose|p: int| 0 <= p < kept.len() && kept[p] == counted(e)[m];
            assert(counted(after)[p] == kept[p]);
        }
    }
}

/// A slot that has only matches of listed nodes loses none.
proof fn lemma_nothing_to_drop(e: NodeView, ids: Seq<u64>)
    requires
        e.shaped(),
        e.state == SlotState::Active.spec_value() ==> {
            &&& e.match_count <= MAX_MATCHES
            &&& forall|k: int|
                0 <= k < e.match_count ==> match_list::stays(
                    #[trigger] e.remote_matches[k],
                    ids,
                    true,
                )
        },
    ensures
        match_list::drop_matches(e, ids, true, false) == e,
{
    if e.state == SlotState::Active.spec_value() {
        assert forall|k: int| 0 <= k < counted(e).len() implies match_list::stays(
            #[trigger] counted(e)[k],
            ids,
            true,
        ) by {
            assert(counted(e)[k] == e.remote_matches[k]);
        }
        match_list::lemma_all_kept(counted(e), ids, true);
    }
}

/// Whether every active slot is a node's.
pub open spec fn active_named(table: Seq<NodeView>) -> bool {
    forall|k: int|
        0 <= k < table.len() && (#[trigger] table[k]).state == SlotState::Active.spec_value()
            ==> table[k].node_id != 0
}

/// To renew a table's matches again at once changes no slot, and says so: where every
/// active slot is a node's, and no list came so near its end that an address might not
/// have found room.
pub proof fn law_renewing_again_changes_nothing(table: Seq<NodeView>)
    requires
        discovery_shm::table_shaped(table),
        active_named(table),
        table_roomy(linked(table)),
    ensures
        linked(renewed(table)) == renewed(table),
        renewed(renewed(table)) == renewed(table),
        !any_recounted(renewed(table), linked(renewed(table))),
        !match_list::any_stepped(linked(renewed(table)), renewed(renewed(table))),
{
    let n = table.len() as int;
    let full = linked(table);
    let ids = active_ids(table);
    let done = renewed(table);
    lemma_rows_acquaint(table, n);
    lemma_linked_rows(table, n);
    lemma_grew_shaped(table, full);
    lemma_active_ids_kept(table, full);
    assert forall|k: int| 0 <= k < n implies (#[trigger] done[k]).shaped() && done[k] == (NodeView {
        remote_matches: done[k].remote_matches,
        match_count: done[k].match_count,
        response_gen: done[k].response_gen,
        ..full[k]
    }) by {
        assert(full[k].shaped());
        match_list::lemma_compacted_full(
            full[k].remote_matches,
            match_list::match_limit(full[k]),
            ids,
            true,
        );
    }
    assert forall|i: int, j: int|
        0 <= i < n && 0 <= j < n && links(done, i, j) implies #[trigger] acquainted(done, i, j) by {
        assert(done[i].shaped() && done[j].shaped());
        assert(full[i].shaped() && full[j].shaped());
        assert(links(table, i, j));
        assert(acquainted(full, i, j));
        assert(roomy(full[i]) && roomy(full[j]));
        assert(table[i].node_id != 0 && table[j].node_id != 0);
        lemma_active_id_listed(full, i);
        lemma_active_id_listed(full, j);
        let hashes = served_hashes(full[i].pubs(), full[j].subs());
        assert(done[i].pubs() == full[i].pubs() && done[j].subs() == full[j].subs());
        assert forall|h: int| 0 <= h < hashes.len() implies knows(
            done[j],
            done[i],
            #[trigger] hashes[h],
        ) && knows(done[i], done[j], hashes[h]) by {
            lemma_dropping_keeps_known(full[j], full[i], hashes[h], ids);
            lemma_dropping_keeps_known(full[i], full[j], hashes[h], ids);
            assert(reach(done[i]) == reach(full[i]) && reach(done[j]) == reach(full[j]));
        }
    }
    lemma_rows_of_acquaintances(done, n);
    lemma_active_ids_same(full, done);
    assert forall|k: int| 0 <= k < n implies match_list::drop_matches(
        #[trigger] done[k],
        ids,
        true,
        false,
    ) == done[k] by {
        assert(full[k].shaped() && done[k].shaped());
        if done[k].state == SlotState::Active.spec_value() {
            match_list::law_dropped_matches_are_gone(full[k], ids, true, false);
        }
        lemma_nothing_to_drop(done[k], ids);
    }
    assert(renewed(done) =~= done);
}

/// Whether all matches that a slot counts are of listed nodes.
pub open spec fn all_listed(e: NodeView, ids: Seq<u64>) -> bool {
    forall|k: int|
        0 <= k < match_list::match_limit(e) ==> match_list::stays(
            #[trigger] e.remote_matches[k],
            ids,
            true,
        )
}

/// Whether all matches of active slots are of listed nodes.
pub open spec fn table_listed(table: Seq<NodeView>, ids: Seq<u64>) -> bool {
    forall|k: int|
        0 <= k < table.len() && (#[trigger] table[k]).state == SlotState::Active.spec_value()
            ==> all_listed(table[k], ids)
}

proof fn lemma_fresh_named(
    existing: Seq<MatchEntry>,
    node_id: u64,
    hash: u64,
    port: u16,
    addrs: Seq<[u8; 4]>,
)
    ensures
        forall|k: int|
            0 <= k < fresh_matches(existing, node_id, hash, port, addrs).len() ==> (
            #[trigger] fresh_matches(existing, node_id, hash, port, addrs)[k]).node_id == node_id,
    decreases addrs.len(),
{
    if addrs.len() > 0 {
        let prev = fresh_matches(existing, node_id, hash, port, addrs.drop_last());
        let all = fresh_matches(existing, node_id, hash, port, addrs);
        lemma_fresh_named(existing, node_id, hash, port, addrs.drop_last());
        assert forall|k: int| 0 <= k < all.len() implies (#[trigger] all[k]).node_id == node_id by {
            if k < prev.len() {
                assert(all[k] == prev[k]);
            }
        }
    }
}

proof fn lemma_learned_listed(e: NodeView, from: NodeView, hash: u64, ids: Seq<u64>)
    requires
        e.shaped(),
        from.shaped(),
        ids.contains(from.node_id),
        all_listed(e, ids),
    ensures
        all_listed(learned(e, from, hash), ids),
{
    let after = learned(e, from, hash);
    let count = e.match_count as int;
    let addrs = first_addrs(reach(from), room(count));
    let new = fresh_matches(counted(e), from.node_id, hash, from.quic_port, addrs);
    lemma_fresh_len(counted(e), from.node_id, hash, from.quic_port, addrs);
    lemma_fresh_named(counted(e), from.node_id, hash, from.quic_port, addrs);
    if new.len() > 0 {
        assert forall|k: int| 0 <= k < match_list::match_limit(after) implies match_list::stays(
            #[trigger] after.remote_matches[k],
            ids,
            true,
        ) by {
            if k < count {
                assert(after.remote_matches[k] == e.remote_matches[k]);
            } else {
                assert(after.remote_matches[k] == new[k - count]);
            }
        }
    }
}

proof fn lemma_learned_each_listed(e: NodeView, from: NodeView, hashes: Seq<u64>, ids: Seq<u64>)
    requires
        e.shaped(),
        from.shaped(),
        ids.contains(from.node_id),
        all_listed(e, ids),
    ensures
        all_listed(learned_each(e, from, hashes), ids),
    decreases hashes.len(),
{
    if hashes.len() > 0 {
        let d = hashes.drop_last();
        lemma_learned_each(e, from, d);
        lemma_learned_each_listed(e, from, d, ids);
        lemma_learned_listed(learned_each(e, from, d), from, hashes.last(), ids);
    }
}

/// Linking gives active slots only matches of active nodes.
proof fn lemma_row_listed(table: Seq<NodeView>, i: int, n: int, ids: Seq<u64>)
    requires
        discovery_shm::table_shaped(table),
        0 <= i < table.len(),
        n <= table.len(),
        table_listed(table, ids),
        forall|k: int|
            0 <= k < table.len() && (#[trigger] table[k]).state == SlotState::Active.spec_value()
                ==> ids.contains(table[k].node_id),
    ensures
        table_listed(linked_row(table, i, n), ids),
    decreases n,
{
    if n > 0 {
        let prev = linked_row(table, i, n - 1);
        let j = n - 1;
        lemma_row_listed(table, i, j, ids);
        lemma_linked_row(table, i, j);
        assert(prev[i].shaped() && prev[j].shaped());
        if links(prev, i, j) {
            let after = linked_pair(prev, i, j);
            let hashes = served_hashes(prev[i].pubs(), prev[j].subs());
            assert(table[i].state == SlotState::Active.spec_value());
            assert(table[j].state == SlotState::Active.spec_value());
            lemma_learned_each_listed(prev[j], prev[i], hashes, ids);
            lemma_learned_each_listed(prev[i], prev[j], hashes, ids);
            assert forall|k: int|
                0 <= k < after.len() && (#[trigger] after[k]).state
                    == SlotState::Active.spec_value() implies all_listed(after[k], ids) by {
                if k != i && k != j {
                    assert(after[k] == prev[k]);
                }
            }
        }
    }
}

proof fn lemma_rows_listed(table: Seq<NodeView>, n: int, ids: Seq<u64>)
    requires
        discovery_shm::table_shaped(table),
        n <= table.len(),
        table_listed(table, ids),
        forall|k: int|
            0 <= k < table.len() && (#[trigger] table[k]).state == SlotState::Active.spec_value()
                ==> ids.contains(table[k].node_id),
    ensures
        table_listed(linked_rows(table, n), ids),
    decreases n,
{
    if n > 0 {
        let prev = linked_rows(table, n - 1);
        lemma_rows_listed(table, n - 1, ids);
        lemma_linked_rows(table, n - 1);
        lemma_grew_shaped(table, prev);
        assert forall|k: int|
            0 <= k < prev.len() && (#[trigger] prev[k]).state
                == SlotState::Active.spec_value() implies ids.contains(prev[k].node_id) by {
            assert(prev[k].shaped());
            assert(table[k].state == SlotState::Active.spec_value());
        }
        lemma_row_listed(prev, n - 1, table.len() as int, ids);
    }
}

/// Where all matches were of active nodes, it is enough that the lists have room once
/// they are renewed: to renew them again at once changes no slot, and says so.
pub proof fn law_second_update_changes_nothing(table: Seq<NodeView>)
    requires
        discovery_shm::table_shaped(table),
        active_named(table),
        table_listed(table, active_ids(table)),
        table_roomy(renewed(table)),
    ensures
        linked(renewed(table)) == renewed(table),
        renewed(renewed(table)) == renewed(table),
        !any_recounted(renewed(table), linked(renewed(table))),
        !match_list::any_stepped(linked(renewed(table)), renewed(renewed(table))),
{
    let n = table.len() as int;
    let full = linked(table);
    let ids = active_ids(table);
    let done = renewed(table);
    assert forall|k: int|
        0 <= k < n && (#[trigger] table[k]).state
            == SlotState::Active.spec_value() implies ids.contains(table[k].node_id) by {
        lemma_active_id_listed(table, k);
    }
    lemma_rows_listed(table, n, ids);
    lemma_linked_rows(table, n);
    assert forall|k: int|
        0 <= k < n && (#[trigger] full[k]).state == SlotState::Active.spec_value() implies roomy(
        full[k],
    ) by {
        assert(full[k].shaped());
        assert forall|m: int| 0 <= m < counted(full[k]).len() implies match_list::stays(
            #[trigger] counted(full[k])[m],
            ids,
            true,
        ) by {
            assert(counted(full[k])[m] == full[k].remote_matches[m]);
        }
        match_list::lemma_all_kept(counted(full[k]), ids, true);
        assert(done[k].state == SlotState::Active.spec_value());
        assert(roomy(done[k]));
    }
    law_renewing_again_changes_nothing(table);
}

/// Who is active does not rest on the matches.
proof fn lemma_active_ids_same(a: Seq<NodeView>, b: Seq<NodeView>)
    requires
        a.len() == b.len(),
        forall|k: int|
            0 <= k < a.len() ==> (#[trigger] b[k]).state == a[k].state && b[k].node_id
                == a[k].node_id,
    ensures
        active_ids(b) == active_ids(a),
    decreases a.len(),
{
    if a.len() > 0 {
        let da = a.drop_last();
        let db = b.drop_last();
        assert forall|k: int| 0 <= k < da.len() implies (#[trigger] db[k]).state == da[k].state
            && db[k].node_id == da[k].node_id by {
            assert(db[k] == b[k]);
        }
        lemma_active_ids_same(da, db);
        assert(b[b.len() - 1].state == a[a.len() - 1].state);
    }
}

} // verus!
