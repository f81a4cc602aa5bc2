//! What links hold for: who may be linked with whom, and who is.
use vstd::prelude::*;

#[allow(unused_imports)]
use crate::daemon::discovery_shm;
use crate::daemon::discovery_shm::{MatchEntry, NodeView};
#[allow(unused_imports)]
use crate::daemon::discovery_shm::MAX_MATCHES;
#[allow(unused_imports)]
use crate::daemon::linking;
#[allow(unused_imports)]
use crate::daemon::match_list;

verus! {

/// Whether one node subscribes to a topic that the other publishes, with a quality of
/// service that is offered.
pub open spec fn takes(publisher: NodeView, subscriber: NodeView, hash: u64) -> bool {
    exists|p: int, q: int|
        #![trigger publisher.published_topics[p], subscriber.subscribed_topics[q]]
        0 <= p < publisher.pub_count && 0 <= q < subscriber.sub_count
            && publisher.published_topics[p].hash == hash && subscriber.subscribed_topics[q].hash
            == hash && discovery_shm::topics_qos_compatible(
            publisher.published_topics[p],
            subscriber.subscribed_topics[q],
        )
}

/// Whether a match of a node stands for a peer: one of the same domain, at one of its
/// addresses, for a topic that one of the two publishes and the other takes.
pub open spec fn peer_match(m: MatchEntry, e: NodeView, peer: NodeView) -> bool {
    &&& m.node_id == peer.node_id
    &&& m.port == peer.quic_port
    &&& peer.domain_id == e.domain_id
    &&& takes(peer, e, m.topic_hash) || takes(e, peer, m.topic_hash)
    &&& exists|c: int| 0 <= c < peer.quic_addr_count && c < 8 && #[trigger] peer.quic_addrs[c] == m.addr
}

/// Whether a slot counts the match.
pub open spec fn counts(e: NodeView, m: MatchEntry) -> bool {
    exists|c: int| 0 <= c < e.match_count && #[trigger] e.remote_matches[c] == m
}

/// Whether a slot counts a match of the node for the topic at the address.
pub open spec fn finds(e: NodeView, node_id: u64, hash: u64, addr: [u8; 4]) -> bool {
    exists|c: int|
        0 <= c < e.match_count && (#[trigger] e.remote_matches[c]).node_id == node_id
            && e.remote_matches[c].topic_hash == hash && e.remote_matches[c].addr == addr
}

/// Whether the slots of the table are of one shape and count no more than they hold.
pub open spec fn table_sound(table: Seq<NodeView>) -> bool {
    forall|k: int|
        0 <= k < table.len() ==> (#[trigger] table[k]).shaped() && table[k].counts_fit()
            && table[k].match_count <= MAX_MATCHES
}

/// A topic is served exactly if it is published and a subscription takes it.
pub proof fn law_served_exactly(publisher: NodeView, subscriber: NodeView, hash: u64)
    requires
        publisher.shaped() && publisher.counts_fit(),
        subscriber.shaped() && subscriber.counts_fit(),
    ensures
        linking::served_hashes(publisher.pubs(), subscriber.subs()).contains(hash) <==> takes(
            publisher,
            subscriber,
            hash,
        ),
{
    let pubs = publisher.pubs();
    let subs = subscriber.subs();
    lemma_served_hashes(pubs, subs, hash);
    if linking::served_hashes(pubs, subs).contains(hash) {
        let p = choose|p: int|
            0 <= p < pubs.len() && (#[trigger] pubs[p]).hash == hash && linking::served(
                pubs[p],
                subs,
            );
        let q = choose|q: int|
            0 <= q < subs.len() && (#[trigger] subs[q]).hash == pubs[p].hash
                && discovery_shm::topics_qos_compatible(pubs[p], subs[q]);
        assert(publisher.published_topics[p] == pubs[p]);
        assert(subscriber.subscribed_topics[q] == subs[q]);
    }
    if takes(publisher, subscriber, hash) {
        let (p, q) = choose|p: int, q: int|
            #![trigger publisher.published_topics[p], subscriber.subscribed_topics[q]]
            0 <= p < publisher.pub_count && 0 <= q < subscriber.sub_count
                && publisher.published_topics[p].hash == hash
                && subscriber.subscribed_topics[q].hash == hash
                && discovery_shm::topics_qos_compatible(
                publisher.published_topics[p],
                subscriber.subscribed_topics[q],
            );
        assert(pubs[p] == publisher.published_topics[p]);
        assert(subs[q] == subscriber.subscribed_topics[q]);
        assert(linking::served(pubs[p], subs));
    }
}

proof fn lemma_served_hashes(
    pubs: Seq<discovery_shm::TopicView>,
    subs: Seq<discovery_shm::TopicView>,
    hash: u64,
)
    ensures
        linking::served_hashes(pubs, subs).contains(hash) <==> exists|p: int|
            0 <= p < pubs.len() && (#[trigger] pubs[p]).hash == hash && linking::served(
                pubs[p],
                subs,
            ),
    decreases pubs.len(),
{
    if pubs.len() > 0 {
        let init = pubs.drop_last();
        let rest = linking::served_hashes(init, subs);
        let all = linking::served_hashes(pubs, subs);
        lemma_served_hashes(init, subs, hash);
        if all.contains(hash) {
            let k = choose|k: int| 0 <= k < all.len() && all[k] == hash;
            if k < rest.len() {
                assert(rest[k] == hash);
                let p = choose|p: int|
                    0 <= p < init.len() && (#[trigger] init[p]).hash == hash && linking::served(
                        init[p],
                        subs,
                    );
                assert(pubs[p] == init[p]);
            } else {
                assert(pubs[pubs.len() - 1].hash == hash);
            }
        }
        if exists|p: int|
            0 <= p < pubs.len() && (#[trigger] pubs[p]).hash == hash && linking::served(
                pubs[p],
                subs,
            ) {
            let p = choose|p: int|
                0 <= p < pubs.len() && (#[trigger] pubs[p]).hash == hash && linking::served(
                    pubs[p],
                    subs,
                );
            if p < pubs.len() - 1 {
                assert(init[p] == pubs[p]);
                let k = choose|k: int| 0 <= k < rest.len() && rest[k] == hash;
                assert(all[k] == hash);
            } else {
                assert(all[rest.len() as int] == hash);
            }
        }
    }
}

/// Whether a match tells of a node at one of its addresses, for one of the topics.
spec fn tells(m: MatchEntry, from: NodeView, hashes: Seq<u64>) -> bool {
    &&& m.node_id == from.node_id
    &&& m.port == from.quic_port
    &&& hashes.contains(m.topic_hash)
    &&& exists|c: int| 0 <= c < from.quic_addr_count && c < 8 && #[trigger] from.quic_addrs[c] == m.addr
}

proof fn lemma_reach(from: NodeView, addrs: Seq<[u8; 4]>, a: int)
    requires
        from.shaped(),
        0 <= a < addrs.len(),
        addrs == linking::reach(from) || exists|n: int|
            0 <= n && addrs == #[trigger] linking::first_addrs(linking::reach(from), n),
    ensures
        exists|c: int| 0 <= c < from.quic_addr_count && c < 8 && #[trigger] from.quic_addrs[c] == addrs[a],
{
    assert(from.quic_addrs[a] == addrs[a]);
}

proof fn lemma_fresh(
    existing: Seq<MatchEntry>,
    node_id: u64,
    hash: u64,
    port: u16,
    addrs: Seq<[u8; 4]>,
    k: int,
)
    requires
        0 <= k < linking::fresh_matches(existing, node_id, hash, port, addrs).len(),
    ensures
        ({
            let m = linking::fresh_matches(existing, node_id, hash, port, addrs)[k];
            m.node_id == node_id && m.port == port && m.topic_hash == hash && addrs.contains(m.addr)
        }),
        linking::fresh_matches(existing, node_id, hash, port, addrs).len() <= addrs.len(),
    decreases addrs.len(),
{
    if addrs.len() > 0 {
        let init = addrs.drop_last();
        let prev = linking::fresh_matches(existing, node_id, hash, port, init);
        let all = linking::fresh_matches(existing, node_id, hash, port, addrs);
        if k < prev.len() {
            lemma_fresh(existing, node_id, hash, port, init, k);
            let a = choose|a: int| 0 <= a < init.len() && init[a] == all[k].addr;
            assert(addrs[a] == all[k].addr);
        } else {
            if prev.len() > 0 {
                lemma_fresh(existing, node_id, hash, port, init, 0);
            }
            assert(addrs[addrs.len() - 1] == all[k].addr);
        }
    }
}

/// A slot that learns of a node counts what it counted, and matches of that node for
/// that topic.
proof fn lemma_learned_tells(e: NodeView, from: NodeView, hash: u64)
    requires
        e.shaped(),
        e.match_count <= MAX_MATCHES,
        from.shaped(),
    ensures
        ({
            let l = linking::learned(e, from, hash);
            &&& l.shaped()
            &&& e.match_count <= l.match_count <= MAX_MATCHES
            &&& forall|c: int|
                0 <= c < e.match_count ==> #[trigger] l.remote_matches[c] == e.remote_matches[c]
            &&& forall|c: int|
                e.match_count <= c < l.match_count ==> tells(
                    #[trigger] l.remote_matches[c],
                    from,
                    seq![hash],
                )
        }),
{
    let count = e.match_count as int;
    let known = e.remote_matches.subrange(0, count);
    let addrs = linking::first_addrs(linking::reach(from), linking::room(count));
    let new = linking::fresh_matches(known, from.node_id, hash, from.quic_port, addrs);
    let l = linking::learned(e, from, hash);
    if new.len() > 0 {
        lemma_fresh(known, from.node_id, hash, from.quic_port, addrs, 0);
        assert(addrs.len() <= MAX_MATCHES - count);
        assert forall|c: int| e.match_count <= c < l.match_count implies tells(
            #[trigger] l.remote_matches[c],
            from,
            seq![hash],
        ) by {
            assert(l.remote_matches[c] == new[c - count]);
            lemma_fresh(known, from.node_id, hash, from.quic_port, addrs, c - count);
            let a = choose|a: int| 0 <= a < addrs.len() && addrs[a] == l.remote_matches[c].addr;
            lemma_reach(from, addrs, a);
            assert(seq![hash][0] == hash);
        }
    }
}

proof fn lemma_tells_more(m: MatchEntry, from: NodeView, few: Seq<u64>, many: Seq<u64>)
    requires
        tells(m, from, few),
        forall|k: int| 0 <= k < few.len() ==> many.contains(#[trigger] few[k]),
    ensures
        tells(m, from, many),
{
    let k = choose|k: int| 0 <= k < few.len() && few[k] == m.topic_hash;
    assert(many.contains(few[k]));
}

/// What holds of a slot after it learned of a node: it counts what it counted, and
/// matches of that node for those topics.
spec fn told_of(e: NodeView, after: NodeView, from: NodeView, hashes: Seq<u64>) -> bool {
    &&& after.shaped()
    &&& e.match_count <= after.match_count <= MAX_MATCHES
    &&& forall|c: int|
        0 <= c < e.match_count ==> #[trigger] after.remote_matches[c] == e.remote_matches[c]
    &&& forall|c: int|
        e.match_count <= c < after.match_count ==> tells(
            #[trigger] after.remote_matches[c],
            from,
            hashes,
        )
}

proof fn lemma_told_on(
    e: NodeView,
    mid: NodeView,
    after: NodeView,
    from: NodeView,
    hashes: Seq<u64>,
)
    requires
        hashes.len() > 0,
        told_of(e, mid, from, hashes.drop_last()),
        told_of(mid, after, from, seq![hashes.last()]),
    ensures
        told_of(e, after, from, hashes),
{
    let init = hashes.drop_last();
    assert forall|c: int| 0 <= c < e.match_count implies #[trigger] after.remote_matches[c]
        == e.remote_matches[c] by {
        assert(mid.remote_matches[c] == e.remote_matches[c]);
    }
    assert forall|c: int| e.match_count <= c < after.match_count implies tells(
        #[trigger] after.remote_matches[c],
        from,
        hashes,
    ) by {
        if c < mid.match_count {
            assert(mid.remote_matches[c] == after.remote_matches[c]);
            assert forall|k: int| 0 <= k < init.len() implies hashes.contains(
                #[trigger] init[k],
            ) by {
                assert(hashes[k] == init[k]);
            }
            lemma_tells_more(after.remote_matches[c], from, init, hashes);
        } else {
            assert(hashes[hashes.len() - 1] == hashes.last());
            lemma_tells_more(after.remote_matches[c], from, seq![hashes.last()], hashes);
        }
    }
}

proof fn lemma_learned_each_tells(e: NodeView, from: NodeView, hashes: Seq<u64>)
    requires
        e.shaped(),
        e.match_count <= MAX_MATCHES,
        from.shaped(),
    ensures
        told_of(e, linking::learned_each(e, from, hashes), from, hashes),
    decreases hashes.len(),
{
    if hashes.len() > 0 {
        let init = hashes.drop_last();
        let mid = linking::learned_each(e, from, init);
        lemma_learned_each_tells(e, from, init);
        lemma_learned_tells(mid, from, hashes.last());
        lemma_told_on(e, mid, linking::learned(mid, from, hashes.last()), from, hashes);
    }
}

proof fn lemma_told_each_tells(e: NodeView, from: NodeView, hashes: Seq<u64>)
    requires
        e.shaped(),
        e.match_count <= MAX_MATCHES,
        from.shaped(),
    ensures
        told_of(e, linking::told_each(e, from, hashes), from, hashes),
    decreases hashes.len(),
{
    if hashes.len() > 0 {
        let init = hashes.drop_last();
        let mid = linking::told_each(e, from, init);
        lemma_told_each_tells(e, from, init);
        lemma_learned_tells(mid, from, hashes.last());
        let l = linking::learned(mid, from, hashes.last());
        let s = linking::stepped(mid, l);
        assert(told_of(mid, s, from, seq![hashes.last()]));
        lemma_told_on(e, mid, s, from, hashes);
    }
}

proof fn lemma_all_each_tells(own: Seq<MatchEntry>, peer: NodeView, hashes: Seq<u64>, m: MatchEntry)
    requires
        peer.shaped(),
        linking::all_each(own, peer, hashes).contains(m),
    ensures
        own.contains(m) || tells(m, peer, hashes),
    decreases hashes.len(),
{
    if hashes.len() > 0 {
        let init = hashes.drop_last();
        let prev = linking::all_each(own, peer, init);
        let all = linking::all_each(own, peer, hashes);
        let addrs = linking::first_addrs(linking::reach(peer), linking::room(prev.len() as int));
        let k = choose|k: int| 0 <= k < all.len() && all[k] == m;
        assert(hashes[hashes.len() - 1] == hashes.last());
        if k < prev.len() {
            assert(prev[k] == m);
            lemma_all_each_tells(own, peer, init, m);
            if tells(m, peer, init) {
                assert forall|h: int| 0 <= h < init.len() implies hashes.contains(
                    #[trigger] init[h],
                ) by {
                    assert(hashes[h] == init[h]);
                }
                lemma_tells_more(m, peer, init, hashes);
            }
        } else {
            lemma_reach(peer, addrs, k - prev.len());
        }
    }
}

proof fn lemma_with_missing_adds(
    ms: Seq<MatchEntry>,
    node_id: u64,
    hash: u64,
    port: u16,
    addrs: Seq<[u8; 4]>,
    m: MatchEntry,
)
    requires
        linking::with_missing(ms, node_id, hash, port, addrs).contains(m),
    ensures
        ms.contains(m) || (m.node_id == node_id && m.port == port && m.topic_hash == hash
            && addrs.contains(m.addr)),
    decreases addrs.len(),
{
    if addrs.len() > 0 {
        let init = addrs.drop_last();
        let prev = linking::with_missing(ms, node_id, hash, port, init);
        let all = linking::with_missing(ms, node_id, hash, port, addrs);
        let k = choose|k: int| 0 <= k < all.len() && all[k] == m;
        if k < prev.len() {
            assert(prev[k] == m);
            lemma_with_missing_adds(ms, node_id, hash, port, init, m);
            if init.contains(m.addr) {
                let a = choose|a: int| 0 <= a < init.len() && init[a] == m.addr;
                assert(addrs[a] == m.addr);
            }
        } else {
            assert(addrs[addrs.len() - 1] == m.addr);
        }
    }
}

proof fn lemma_missing_each_tells(
    own: Seq<MatchEntry>,
    peer: NodeView,
    hashes: Seq<u64>,
    m: MatchEntry,
)
    requires
        peer.shaped(),
        linking::missing_each(own, peer, hashes).contains(m),
    ensures
        own.contains(m) || tells(m, peer, hashes),
    decreases hashes.len(),
{
    if hashes.len() > 0 {
        let init = hashes.drop_last();
        let prev = linking::missing_each(own, peer, init);
        let addrs = linking::reach(peer);
        assert(hashes[hashes.len() - 1] == hashes.last());
        lemma_with_missing_adds(prev, peer.node_id, hashes.last(), peer.quic_port, addrs, m);
        if prev.contains(m) {
            lemma_missing_each_tells(own, peer, init, m);
            if tells(m, peer, init) {
                assert forall|h: int| 0 <= h < init.len() implies hashes.contains(
                    #[trigger] init[h],
                ) by {
                    assert(hashes[h] == init[h]);
                }
                lemma_tells_more(m, peer, init, hashes);
            }
        } else {
            let a = choose|a: int| 0 <= a < addrs.len() && addrs[a] == m.addr;
            lemma_reach(peer, addrs, a);
        }
    }
}

/// What a node gathers stands for active peers of its domain.
proof fn lemma_gathered_peers(table: Seq<NodeView>, i: int, n: int, m: MatchEntry)
    requires
        0 <= i < table.len(),
        n <= table.len(),
        table_sound(table),
        linking::gathered(table, i, n).contains(m),
    ensures
        exists|j: int|
            0 <= j < n && j != i && (#[trigger] table[j]).state == 2 && peer_match(
                m,
                table[i],
                table[j],
            ),
    decreases n,
{
    if n > 0 {
        let me = table[i];
        let peer = table[n - 1];
        let prev = linking::gathered(table, i, n - 1);
        assert(me.shaped() && peer.shaped());
        if linking::gathered(table, i, n) == prev {
            lemma_gathered_peers(table, i, n - 1, m);
        } else {
            let theirs = linking::served_hashes(peer.pubs(), me.subs());
            let mine = linking::served_hashes(me.pubs(), peer.subs());
            let all = linking::all_each(prev, peer, theirs);
            lemma_missing_each_tells(all, peer, mine, m);
            if all.contains(m) {
                lemma_all_each_tells(prev, peer, theirs, m);
            }
            if prev.contains(m) {
                lemma_gathered_peers(table, i, n - 1, m);
            } else {
                law_served_exactly(peer, me, m.topic_hash);
                law_served_exactly(me, peer, m.topic_hash);
                assert(table[n - 1].state == 2);
                assert(peer_match(m, table[i], table[n - 1]));
            }
        }
    }
}

proof fn lemma_active_kept(ms: Seq<MatchEntry>, table: Seq<NodeView>, m: MatchEntry)
    ensures
        linking::with_active_node(ms, table).contains(m) <==> ms.contains(m)
            && linking::node_active(table, m.node_id),
    decreases ms.len(),
{
    if ms.len() > 0 {
        let init = ms.drop_last();
        let rest = linking::with_active_node(init, table);
        let all = linking::with_active_node(ms, table);
        lemma_active_kept(init, table, m);
        if rest.contains(m) {
            let k = choose|k: int| 0 <= k < rest.len() && rest[k] == m;
            assert(all[k] == m);
        }
        if init.contains(m) {
            let k = choose|k: int| 0 <= k < init.len() && init[k] == m;
            assert(ms[k] == m);
        }
        if m == ms.last() {
            assert(ms[ms.len() - 1] == m);
            if linking::node_active(table, m.node_id) {
                assert(all[rest.len() as int] == m);
            }
        } else if ms.contains(m) {
            let k = choose|k: int| 0 <= k < ms.len() && ms[k] == m;
            assert(init[k] == m);
        }
        if all.contains(m) && !rest.contains(m) {
            let k = choose|k: int| 0 <= k < all.len() && all[k] == m;
            if k < rest.len() {
                assert(rest[k] == m);
            }
        }
    }
}

/// A node that was registered counts matches of active nodes of its own domain only,
/// each at one of its addresses and for a topic that one of the two publishes and the
/// other takes.
pub proof fn law_registered_node_meets_its_domain(table: Seq<NodeView>, i: int, m: MatchEntry)
    requires
        0 <= i < table.len(),
        table_sound(table),
        counts(linking::registered(table, i)[i], m),
    ensures
        exists|j: int|
            0 <= j < table.len() && j != i && (#[trigger] table[j]).state == 2 && peer_match(
                m,
                table[i],
                table[j],
            ),
{
    let started = table.update(i, NodeView { state: 2, ..table[i] });
    let n = table.len() as int;
    let met = linking::met_slots(started, i, n);
    let own = linking::with_active_node(linking::gathered(started, i, n), met);
    let r = linking::registered(table, i);
    assert forall|k: int| 0 <= k < started.len() implies (#[trigger] started[k]).shaped()
        && started[k].counts_fit() && started[k].match_count <= MAX_MATCHES by {
        assert(table[k].shaped());
    }
    linking::lemma_gathered_len(started, i, n);
    lemma_active_len(linking::gathered(started, i, n), met);
    let c = choose|c: int| 0 <= c < r[i].match_count && #[trigger] r[i].remote_matches[c] == m;
    assert(own[c] == m);
    lemma_active_kept(linking::gathered(started, i, n), met, m);
    lemma_gathered_peers(started, i, n, m);
    let j = choose|j: int|
        0 <= j < n && j != i && (#[trigger] started[j]).state == 2 && peer_match(
            m,
            started[i],
            started[j],
        );
    assert(table[j] == started[j]);
    lemma_peer_match_alike(m, started[i], table[i], started[j], table[j]);
}

proof fn lemma_active_len(ms: Seq<MatchEntry>, table: Seq<NodeView>)
    ensures
        linking::with_active_node(ms, table).len() <= ms.len(),
    decreases ms.len(),
{
    if ms.len() > 0 {
        lemma_active_len(ms.drop_last(), table);
    }
}

/// Whether two slots hold the same node with the same topics at the same addresses.
pub open spec fn alike(a: NodeView, b: NodeView) -> bool {
    a == (NodeView {
        state: a.state,
        remote_matches: a.remote_matches,
        match_count: a.match_count,
        response_gen: a.response_gen,
        ..b
    })
}

proof fn lemma_takes_alike(a: NodeView, a2: NodeView, b: NodeView, b2: NodeView, hash: u64)
    requires
        alike(a, a2),
        alike(b, b2),
        takes(a, b, hash),
    ensures
        takes(a2, b2, hash),
{
    let (p, q) = choose|p: int, q: int|
        #![trigger a.published_topics[p], b.subscribed_topics[q]]
        0 <= p < a.pub_count && 0 <= q < b.sub_count && a.published_topics[p].hash == hash
            && b.subscribed_topics[q].hash == hash && discovery_shm::topics_qos_compatible(
            a.published_topics[p],
            b.subscribed_topics[q],
        );
    assert(a2.published_topics[p] == a.published_topics[p]);
    assert(b2.subscribed_topics[q] == b.subscribed_topics[q]);
}

proof fn lemma_peer_match_alike(m: MatchEntry, a: NodeView, a2: NodeView, b: NodeView, b2: NodeView)
    requires
        alike(a, a2),
        alike(b, b2),
        peer_match(m, a, b),
    ensures
        peer_match(m, a2, b2),
{
    if takes(b, a, m.topic_hash) {
        lemma_takes_alike(b, b2, a, a2, m.topic_hash);
    } else {
        lemma_takes_alike(a, a2, b, b2, m.topic_hash);
    }
    let c = choose|c: int| 0 <= c < b.quic_addr_count && c < 8 && #[trigger] b.quic_addrs[c] == m.addr;
    assert(b2.quic_addrs[c] == m.addr);
}

/// Registering a node changes no slot of another domain and none that is not active;
/// an active slot of its domain keeps what it counted and gains matches of the node
/// alone, for topics of the node that it takes.
pub proof fn law_registration_stays_in_its_domain(
    table: Seq<NodeView>,
    i: int,
    j: int,
    m: MatchEntry,
)
    requires
        0 <= i < table.len(),
        0 <= j < table.len(),
        i != j,
        table_sound(table),
    ensures
        linking::registered(table, i).len() == table.len(),
        table[j].domain_id != table[i].domain_id ==> linking::registered(table, i)[j] == table[j],
        table[j].state != 2 ==> linking::registered(table, i)[j] == table[j],
        counts(table[j], m) ==> counts(linking::registered(table, i)[j], m),
        counts(linking::registered(table, i)[j], m) && !counts(table[j], m) ==> peer_match(
            m,
            table[j],
            table[i],
        ) && takes(table[i], table[j], m.topic_hash),
        alike(linking::registered(table, i)[j], table[j]),
        linking::registered(table, i)[j].state == table[j].state,
        linking::registered(table, i)[j].shaped(),
        linking::registered(table, i)[j].match_count <= MAX_MATCHES,
{
    let started = table.update(i, NodeView { state: 2, ..table[i] });
    let me = started[i];
    let peer = started[j];
    let r = linking::registered(table, i);
    assert(table[i].shaped() && table[j].shaped());
    assert(peer == table[j]);
    if r[j] != table[j] {
        let hashes = linking::served_hashes(me.pubs(), peer.subs());
        assert(r[j] == linking::told_each(peer, me, hashes));
        linking::lemma_told_each(peer, me, hashes);
        lemma_told_each_tells(peer, me, hashes);
        if counts(table[j], m) {
            let c = choose|c: int|
                0 <= c < table[j].match_count && #[trigger] table[j].remote_matches[c] == m;
            assert(r[j].remote_matches[c] == m);
        }
        if counts(r[j], m) && !counts(table[j], m) {
            let c = choose|c: int|
                0 <= c < r[j].match_count && #[trigger] r[j].remote_matches[c] == m;
            if c < table[j].match_count {
                assert(table[j].remote_matches[c] == m);
            }
            assert(tells(m, me, hashes));
            law_served_exactly(me, peer, m.topic_hash);
            lemma_takes_alike(me, table[i], peer, table[j], m.topic_hash);
            let a = choose|a: int|
                0 <= a < me.quic_addr_count && a < 8 && #[trigger] me.quic_addrs[a] == m.addr;
            assert(table[i].quic_addrs[a] == m.addr);
        }
    }
}

/// Registering all pending nodes keeps every node, its topics and its addresses, and
/// links nodes of one domain only: a match that a slot gains stands for a node that was
/// pending or active in the same domain.
pub proof fn law_registrations_stay_in_their_domains(
    table: Seq<NodeView>,
    n: int,
    k: int,
    m: MatchEntry,
)
    requires
        table_sound(table),
        0 <= n <= table.len(),
        0 <= k < table.len(),
    ensures
        ({
            let after = linking::all_registered(table, n);
            &&& after.len() == table.len()
            &&& after[k].shaped() && after[k].counts_fit() && after[k].match_count <= MAX_MATCHES
            &&& alike(after[k], table[k])
            &&& after[k].state == (if table[k].state == 1 && k < n {
                2u8
            } else {
                table[k].state
            })
            &&& counts(after[k], m) && !counts(table[k], m) ==> exists|j: int|
                0 <= j < table.len() && j != k && 1 <= (#[trigger] table[j]).state <= 2
                    && peer_match(m, table[k], table[j])
        }),
    decreases n,
{
    if n > 0 {
        let prev = linking::all_registered(table, n - 1);
        let i = n - 1;
        law_registrations_stay_in_their_domains(table, n - 1, k, m);
        law_registrations_stay_in_their_domains(table, n - 1, i, m);
        if prev[i].state == 1 {
            assert forall|j: int| 0 <= j < prev.len() implies (#[trigger] prev[j]).shaped()
                && prev[j].counts_fit() && prev[j].match_count <= MAX_MATCHES by {
                law_registrations_stay_in_their_domains(table, n - 1, j, m);
            }
            let after = linking::registered(prev, i);
            linking::lemma_registered(prev, i);
            assert(after[i].shaped());
            if k != i {
                law_registration_stays_in_its_domain(prev, i, k, m);
                if counts(after[k], m) && !counts(table[k], m) && !counts(prev[k], m) {
                    lemma_peer_match_alike(m, prev[k], table[k], prev[i], table[i]);
                    assert(1 <= table[i].state <= 2);
                }
            } else {
                lemma_registered_self(prev, i);
                if counts(after[k], m) {
                    law_registered_node_meets_its_domain(prev, i, m);
                    let j = choose|j: int|
                        0 <= j < prev.len() && j != i && (#[trigger] prev[j]).state == 2
                            && peer_match(m, prev[i], prev[j]);
                    law_registrations_stay_in_their_domains(table, n - 1, j, m);
                    lemma_peer_match_alike(m, prev[i], table[i], prev[j], table[j]);
                    assert(1 <= table[j].state <= 2);
                }
            }
        }
    }
}

proof fn lemma_registered_self(table: Seq<NodeView>, i: int)
    requires
        0 <= i < table.len(),
        table_sound(table),
    ensures
        alike(linking::registered(table, i)[i], table[i]),
        linking::registered(table, i)[i].match_count <= MAX_MATCHES,
{
    let started = table.update(i, NodeView { state: 2, ..table[i] });
    let n = table.len() as int;
    let met = linking::met_slots(started, i, n);
    linking::lemma_gathered_len(started, i, n);
    lemma_active_len(linking::gathered(started, i, n), met);
}

/// Whether no two used slots hold the same node.
pub open spec fn nodes_apart(table: Seq<NodeView>) -> bool {
    forall|a: int, b: int|
        0 <= a < b < table.len() && table[a].state != 0 && table[b].state != 0 ==> (
        #[trigger] table[a]).node_id != (#[trigger] table[b]).node_id
}

proof fn lemma_all_each_covers(
    own: Seq<MatchEntry>,
    peer: NodeView,
    hashes: Seq<u64>,
    h: int,
    a: int,
)
    requires
        linking::all_each(own, peer, hashes).len() < MAX_MATCHES,
    ensures
        own.len() <= linking::all_each(own, peer, hashes).len(),
        forall|k: int|
            0 <= k < own.len() ==> #[trigger] linking::all_each(own, peer, hashes)[k] == own[k],
        0 <= h < hashes.len() && 0 <= a < linking::reach(peer).len() ==> linking::has_match(
            linking::all_each(own, peer, hashes),
            peer.node_id,
            hashes[h],
            linking::reach(peer)[a],
        ),
    decreases hashes.len(),
{
    if hashes.len() > 0 {
        let init = hashes.drop_last();
        let prev = linking::all_each(own, peer, init);
        let all = linking::all_each(own, peer, hashes);
        let addrs = linking::reach(peer);
        let used = linking::first_addrs(addrs, linking::room(prev.len() as int));
        assert(all.len() == prev.len() + used.len());
        lemma_all_each_covers(own, peer, init, h, a);
        assert forall|k: int| 0 <= k < prev.len() implies #[trigger] all[k] == prev[k] by {}
        if 0 <= h < hashes.len() && 0 <= a < addrs.len() {
            if h < init.len() {
                let k = choose|k: int|
                    0 <= k < prev.len() && (#[trigger] prev[k]).node_id == peer.node_id
                        && prev[k].topic_hash == init[h] && prev[k].addr == addrs[a];
                assert(all[k] == prev[k]);
            } else {
                assert(used == addrs);
                assert(all[prev.len() + a].addr == addrs[a]);
            }
        }
    }
}

proof fn lemma_with_missing_covers(
    ms: Seq<MatchEntry>,
    node_id: u64,
    hash: u64,
    port: u16,
    addrs: Seq<[u8; 4]>,
    a: int,
)
    requires
        linking::with_missing(ms, node_id, hash, port, addrs).len() < MAX_MATCHES,
    ensures
        ms.len() <= linking::with_missing(ms, node_id, hash, port, addrs).len(),
        forall|k: int|
            0 <= k < ms.len() ==> #[trigger] linking::with_missing(ms, node_id, hash, port, addrs)[k]
                == ms[k],
        0 <= a < addrs.len() ==> linking::has_match(
            linking::with_missing(ms, node_id, hash, port, addrs),
            node_id,
            hash,
            addrs[a],
        ),
    decreases addrs.len(),
{
    if addrs.len() > 0 {
        let init = addrs.drop_last();
        let prev = linking::with_missing(ms, node_id, hash, port, init);
        let all = linking::with_missing(ms, node_id, hash, port, addrs);
        assert(prev.len() <= all.len());
        assert forall|k: int| 0 <= k < prev.len() implies #[trigger] all[k] == prev[k] by {}
        lemma_with_missing_covers(ms, node_id, hash, port, init, a);
        if 0 <= a < addrs.len() {
            if linking::has_match(prev, node_id, hash, addrs[a]) {
                let k = choose|k: int|
                    0 <= k < prev.len() && (#[trigger] prev[k]).node_id == node_id
                        && prev[k].topic_hash == hash && prev[k].addr == addrs[a];
                assert(all[k] == prev[k]);
            } else {
                assert(a == addrs.len() - 1);
                assert(all[prev.len() as int].addr == addrs[a]);
            }
        }
    }
}

proof fn lemma_missing_each_covers(
    own: Seq<MatchEntry>,
    peer: NodeView,
    hashes: Seq<u64>,
    h: int,
    a: int,
)
    requires
        linking::missing_each(own, peer, hashes).len() < MAX_MATCHES,
    ensures
        own.len() <= linking::missing_each(own, peer, hashes).len(),
        forall|k: int|
            0 <= k < own.len() ==> #[trigger] linking::missing_each(own, peer, hashes)[k] == own[k],
        0 <= h < hashes.len() && 0 <= a < linking::reach(peer).len() ==> linking::has_match(
            linking::missing_each(own, peer, hashes),
            peer.node_id,
            hashes[h],
            linking::reach(peer)[a],
        ),
    decreases hashes.len(),
{
    if hashes.len() > 0 {
        let init = hashes.drop_last();
        let prev = linking::missing_each(own, peer, init);
        let all = linking::missing_each(own, peer, hashes);
        let addrs = linking::reach(peer);
        lemma_with_missing_covers(
            prev,
            peer.node_id,
            hashes.last(),
            peer.quic_port,
            addrs,
            a,
        );
        lemma_missing_each_covers(own, peer, init, h, a);
        if 0 <= h < init.len() && 0 <= a < addrs.len() {
            let k = choose|k: int|
                0 <= k < prev.len() && (#[trigger] prev[k]).node_id == peer.node_id
                    && prev[k].topic_hash == init[h] && prev[k].addr == addrs[a];
            assert(all[k] == prev[k]);
        }
    }
}

proof fn lemma_gathered_covers(
    table: Seq<NodeView>,
    i: int,
    n: int,
    j: int,
    hash: u64,
    a: int,
)
    requires
        0 <= i < table.len(),
        0 <= j < n <= table.len(),
        j != i,
        table_sound(table),
        table[j].state == 2,
        table[j].domain_id == table[i].domain_id,
        takes(table[j], table[i], hash) || takes(table[i], table[j], hash),
        0 <= a < linking::reach(table[j]).len(),
        linking::gathered(table, i, n).len() < MAX_MATCHES,
    ensures
        linking::has_match(
            linking::gathered(table, i, n),
            table[j].node_id,
            hash,
            linking::reach(table[j])[a],
        ),
    decreases n,
{
    let me = table[i];
    let peer = table[n - 1];
    assert(me.shaped() && peer.shaped() && table[j].shaped());
    let prev = linking::gathered(table, i, n - 1);
    let now = linking::gathered(table, i, n);
    let theirs = linking::served_hashes(peer.pubs(), me.subs());
    let mine = linking::served_hashes(me.pubs(), peer.subs());
    let all = linking::all_each(prev, peer, theirs);
    if linking::meets(table, i, n - 1) {
        lemma_missing_each_longer(all, peer, mine);
        lemma_missing_each_covers(all, peer, mine, 0, 0);
        lemma_all_each_longer(prev, peer, theirs);
        lemma_all_each_covers(prev, peer, theirs, 0, 0);
    }
    if j == n - 1 {
        law_served_exactly(peer, me, hash);
        law_served_exactly(me, peer, hash);
        if takes(peer, me, hash) {
            let h = choose|h: int| 0 <= h < theirs.len() && theirs[h] == hash;
            lemma_all_each_covers(prev, peer, theirs, h, a);
            let k = choose|k: int|
                0 <= k < all.len() && (#[trigger] all[k]).node_id == peer.node_id
                    && all[k].topic_hash == hash && all[k].addr == linking::reach(peer)[a];
            assert(now[k] == all[k]);
        } else {
            let h = choose|h: int| 0 <= h < mine.len() && mine[h] == hash;
            lemma_missing_each_covers(all, peer, mine, h, a);
        }
    } else {
        lemma_gathered_covers(table, i, n - 1, j, hash, a);
        let addr = linking::reach(table[j])[a];
        let k = choose|k: int|
            0 <= k < prev.len() && (#[trigger] prev[k]).node_id == table[j].node_id
                && prev[k].topic_hash == hash && prev[k].addr == addr;
        if linking::meets(table, i, n - 1) {
            assert(all[k] == prev[k]);
            assert(now[k] == all[k]);
        }
    }
}

proof fn lemma_all_each_longer(own: Seq<MatchEntry>, peer: NodeView, hashes: Seq<u64>)
    ensures
        own.len() <= linking::all_each(own, peer, hashes).len(),
    decreases hashes.len(),
{
    if hashes.len() > 0 {
        lemma_all_each_longer(own, peer, hashes.drop_last());
    }
}

proof fn lemma_with_missing_longer(
    ms: Seq<MatchEntry>,
    node_id: u64,
    hash: u64,
    port: u16,
    addrs: Seq<[u8; 4]>,
)
    ensures
        ms.len() <= linking::with_missing(ms, node_id, hash, port, addrs).len(),
    decreases addrs.len(),
{
    if addrs.len() > 0 {
        lemma_with_missing_longer(ms, node_id, hash, port, addrs.drop_last());
    }
}

proof fn lemma_missing_each_longer(own: Seq<MatchEntry>, peer: NodeView, hashes: Seq<u64>)
    ensures
        own.len() <= linking::missing_each(own, peer, hashes).len(),
    decreases hashes.len(),
{
    if hashes.len() > 0 {
        lemma_missing_each_longer(own, peer, hashes.drop_last());
        lemma_with_missing_longer(
            linking::missing_each(own, peer, hashes.drop_last()),
            peer.node_id,
            hashes.last(),
            peer.quic_port,
            linking::reach(peer),
        );
    }
}

proof fn lemma_all_active(ms: Seq<MatchEntry>, table: Seq<NodeView>)
    requires
        forall|k: int| 0 <= k < ms.len() ==> linking::node_active(table, (#[trigger] ms[k]).node_id),
    ensures
        linking::with_active_node(ms, table) == ms,
    decreases ms.len(),
{
    if ms.len() > 0 {
        let init = ms.drop_last();
        assert forall|k: int| 0 <= k < init.len() implies linking::node_active(
            table,
            (#[trigger] init[k]).node_id,
        ) by {
            assert(init[k] == ms[k]);
        }
        lemma_all_active(init, table);
        assert(ms[ms.len() - 1] == ms.last());
        assert(init.push(ms.last()) =~= ms);
    } else {
        assert(linking::with_active_node(ms, table) =~= ms);
    }
}

proof fn lemma_told_each_finds(e: NodeView, from: NodeView, hashes: Seq<u64>, h: int, a: int)
    requires
        e.shaped(),
        from.shaped(),
        linking::told_each(e, from, hashes).match_count <= 1016,
        0 <= h < hashes.len(),
        0 <= a < linking::reach(from).len(),
        e.match_count <= MAX_MATCHES,
    ensures
        finds(
            linking::told_each(e, from, hashes),
            from.node_id,
            hashes[h],
            linking::reach(from)[a],
        ),
    decreases hashes.len(),
{
    let init = hashes.drop_last();
    let prev = linking::told_each(e, from, init);
    let l = linking::learned(prev, from, hashes.last());
    let t = linking::told_each(e, from, hashes);
    let addr = linking::reach(from)[a];
    linking::lemma_told_each(e, from, init);
    lemma_told_each_tells(e, from, init);
    lemma_learned_tells(prev, from, hashes.last());
    if h < init.len() {
        lemma_told_each_finds(e, from, init, h, a);
        let c = choose|c: int|
            0 <= c < prev.match_count && (#[trigger] prev.remote_matches[c]).node_id == from.node_id
                && prev.remote_matches[c].topic_hash == init[h] && prev.remote_matches[c].addr
                == addr;
        assert(t.remote_matches[c] == prev.remote_matches[c]);
    } else {
        linking::lemma_learns(prev, from, hashes.last());
        let known = linking::counted(l);
        let c = choose|c: int|
            0 <= c < known.len() && (#[trigger] known[c]).node_id == from.node_id
                && known[c].topic_hash == hashes.last() && known[c].addr == addr;
        assert(t.remote_matches[c] == known[c]);
    }
}

/// A node that registers is linked with every active node of its domain with which it
/// shares a topic: it finds the other at each of its addresses, and the other finds it
/// for every topic that it publishes and the other takes. This is where no list came
/// near its end and no node is in two slots.
pub proof fn law_registered_node_meets_all_peers(
    table: Seq<NodeView>,
    i: int,
    j: int,
    hash: u64,
    c: int,
)
    requires
        0 <= i < table.len(),
        0 <= j < table.len(),
        i != j,
        table_sound(table),
        nodes_apart(table),
        table[i].state == 1,
        table[j].state == 2,
        table[j].domain_id == table[i].domain_id,
        0 <= c < 8,
        linking::registered(table, i)[i].match_count < 1024,
        linking::registered(table, i)[j].match_count <= 1016,
    ensures
        c < table[j].quic_addr_count && (takes(table[j], table[i], hash) || takes(
            table[i],
            table[j],
            hash,
        )) ==> finds(
            linking::registered(table, i)[i],
            table[j].node_id,
            hash,
            table[j].quic_addrs[c],
        ),
        c < table[i].quic_addr_count && takes(table[i], table[j], hash) ==> finds(
            linking::registered(table, i)[j],
            table[i].node_id,
            hash,
            table[i].quic_addrs[c],
        ),
        linking::registered(table, i)[i].state == 2,
{
    let started = table.update(i, NodeView { state: 2, ..table[i] });
    let n = table.len() as int;
    let met = linking::met_slots(started, i, n);
    let gathered = linking::gathered(started, i, n);
    let own = linking::with_active_node(gathered, met);
    let r = linking::registered(table, i);
    assert forall|k: int| 0 <= k < started.len() implies (#[trigger] started[k]).shaped()
        && started[k].counts_fit() && started[k].match_count <= MAX_MATCHES by {
        assert(table[k].shaped());
    }
    assert(started[i].shaped() && started[j].shaped());
    linking::lemma_gathered_len(started, i, n);
    lemma_active_len(gathered, met);
    assert forall|k: int| 0 <= k < n implies (#[trigger] met[k]).state == started[k].state
        && met[k].node_id == started[k].node_id by {
        if linking::meets(started, i, k) {
            assert(started[k].shaped());
            linking::lemma_told_each(
                started[k],
                started[i],
                linking::served_hashes(started[i].pubs(), started[k].subs()),
            );
        }
    }
    assert forall|k: int| 0 <= k < gathered.len() implies linking::node_active(
        met,
        (#[trigger] gathered[k]).node_id,
    ) by {
        let m = gathered[k];
        assert(gathered.contains(m));
        lemma_gathered_peers(started, i, n, m);
        let p = choose|p: int|
            0 <= p < n && p != i && (#[trigger] started[p]).state == 2 && peer_match(
                m,
                started[i],
                started[p],
            );
        discovery_shm::lemma_slot_of_node(met, m.node_id);
        assert(met[p].state == 2 && met[p].node_id == m.node_id);
        let s = discovery_shm::slot_of_node(met, m.node_id)->0;
        assert(table[s].node_id == table[p].node_id);
        assert(table[s].state != 0 && table[p].state != 0);
        if s < p {
            assert(table[s].node_id != table[p].node_id);
        }
        if p < s {
            assert(table[p].node_id != table[s].node_id);
        }
    }
    lemma_all_active(gathered, met);
    if c < table[j].quic_addr_count && (takes(table[j], table[i], hash) || takes(
        table[i],
        table[j],
        hash,
    )) {
        if takes(table[j], table[i], hash) {
            lemma_takes_alike(table[j], started[j], table[i], started[i], hash);
        } else {
            lemma_takes_alike(table[i], started[i], table[j], started[j], hash);
        }
        lemma_gathered_covers(started, i, n, j, hash, c);
        let k = choose|k: int|
            0 <= k < gathered.len() && (#[trigger] gathered[k]).node_id == table[j].node_id
                && gathered[k].topic_hash == hash && gathered[k].addr == table[j].quic_addrs[c];
        assert(r[i].remote_matches[k] == own[k]);
    }
    if c < table[i].quic_addr_count && takes(table[i], table[j], hash) {
        lemma_takes_alike(table[i], started[i], table[j], started[j], hash);
        law_served_exactly(started[i], started[j], hash);
        let hashes = linking::served_hashes(started[i].pubs(), started[j].subs());
        let h = choose|h: int| 0 <= h < hashes.len() && hashes[h] == hash;
        lemma_told_each_finds(started[j], started[i], hashes, h, c);
    }
}

/// What linking does to a slot: it keeps the node and what it counted, and what it gains
/// stands for active peers of its domain.
spec fn linked_on(before: Seq<NodeView>, after: Seq<NodeView>) -> bool {
    &&& after.len() == before.len()
    &&& forall|k: int|
        0 <= k < before.len() ==> {
            &&& (#[trigger] after[k]).shaped()
            &&& after[k].counts_fit()
            &&& after[k].match_count <= MAX_MATCHES
            &&& after[k].state == before[k].state
            &&& alike(after[k], before[k])
        }
    &&& forall|k: int, m: MatchEntry|
        #![trigger counts(after[k], m)]
        0 <= k < before.len() && counts(after[k], m) && !counts(before[k], m) ==> before[k].state
            == 2 && exists|j: int|
            0 <= j < before.len() && j != k && (#[trigger] before[j]).state == 2 && peer_match(
                m,
                before[k],
                before[j],
            )
    &&& forall|k: int, m: MatchEntry|
        #![trigger counts(before[k], m)]
        0 <= k < before.len() && counts(before[k], m) ==> counts(after[k], m)
}

proof fn lemma_linked_on_trans(a: Seq<NodeView>, b: Seq<NodeView>, c: Seq<NodeView>)
    requires
        linked_on(a, b),
        linked_on(b, c),
    ensures
        linked_on(a, c),
{
    assert forall|k: int| 0 <= k < a.len() implies {
        &&& (#[trigger] c[k]).shaped()
        &&& c[k].counts_fit()
        &&& c[k].match_count <= MAX_MATCHES
        &&& c[k].state == a[k].state
        &&& alike(c[k], a[k])
    } by {
        assert(alike(b[k], a[k]));
    }
    assert forall|k: int, m: MatchEntry|
        #![trigger counts(c[k], m)]
        0 <= k < a.len() && counts(c[k], m) && !counts(a[k], m) implies a[k].state == 2 && exists|
        j: int,
    |
        0 <= j < a.len() && j != k && (#[trigger] a[j]).state == 2 && peer_match(
            m,
            a[k],
            a[j],
        ) by {
        assert(alike(b[k], a[k]));
        if !counts(b[k], m) {
            let j = choose|j: int|
                0 <= j < b.len() && j != k && (#[trigger] b[j]).state == 2 && peer_match(
                    m,
                    b[k],
                    b[j],
                );
            assert(alike(b[j], a[j]));
            assert(a[j].state == 2);
            lemma_peer_match_alike(m, b[k], a[k], b[j], a[j]);
        }
    }
    assert forall|k: int, m: MatchEntry|
        #![trigger counts(a[k], m)]
        0 <= k < a.len() && counts(a[k], m) implies counts(c[k], m) by {
        assert(counts(b[k], m));
    }
}

proof fn lemma_linked_on_same(table: Seq<NodeView>)
    requires
        table_sound(table),
    ensures
        linked_on(table, table),
{
    assert forall|k: int| 0 <= k < table.len() implies {
        &&& (#[trigger] table[k]).shaped()
        &&& table[k].counts_fit()
        &&& table[k].match_count <= MAX_MATCHES
        &&& alike(table[k], table[k])
    } by {}
}

proof fn lemma_linked_on_sound(before: Seq<NodeView>, after: Seq<NodeView>)
    requires
        linked_on(before, after),
    ensures
        table_sound(after),
{
}

proof fn lemma_counts_on(e: NodeView, after: NodeView, from: NodeView, hashes: Seq<u64>, m: MatchEntry)
    requires
        told_of(e, after, from, hashes),
    ensures
        counts(e, m) ==> counts(after, m),
        counts(after, m) && !counts(e, m) ==> tells(m, from, hashes),
{
    if counts(e, m) {
        let c = choose|c: int| 0 <= c < e.match_count && #[trigger] e.remote_matches[c] == m;
        assert(after.remote_matches[c] == m);
    }
    if counts(after, m) && !counts(e, m) {
        let c = choose|c: int|
            0 <= c < after.match_count && #[trigger] after.remote_matches[c] == m;
        if c < e.match_count {
            assert(e.remote_matches[c] == m);
        }
    }
}

proof fn lemma_pair_linked_on(table: Seq<NodeView>, i: int, j: int)
    requires
        table_sound(table),
        0 <= i < table.len(),
        0 <= j < table.len(),
        i != j,
        table[i].state == 2,
        table[j].state == 2,
        table[i].domain_id == table[j].domain_id,
    ensures
        linked_on(table, linking::linked_pair(table, i, j)),
{
    let after = linking::linked_pair(table, i, j);
    let a = table[i];
    let b = table[j];
    assert(a.shaped() && b.shaped());
    let hashes = linking::served_hashes(a.pubs(), b.subs());
    linking::lemma_learned_each(b, a, hashes);
    linking::lemma_learned_each(a, b, hashes);
    lemma_learned_each_tells(b, a, hashes);
    lemma_learned_each_tells(a, b, hashes);
    assert(told_of(b, after[j], a, hashes));
    assert(told_of(a, after[i], b, hashes));
    assert forall|k: int| 0 <= k < table.len() implies {
        &&& (#[trigger] after[k]).shaped()
        &&& after[k].counts_fit()
        &&& after[k].match_count <= MAX_MATCHES
        &&& after[k].state == table[k].state
        &&& alike(after[k], table[k])
    } by {
        assert(table[k].shaped());
        if k != i && k != j {
            assert(after[k] == table[k]);
        }
    }
    assert forall|k: int, m: MatchEntry|
        #![trigger counts(after[k], m)]
        0 <= k < table.len() && counts(after[k], m) && !counts(table[k], m) implies table[k].state
        == 2 && exists|p: int|
        0 <= p < table.len() && p != k && (#[trigger] table[p]).state == 2 && peer_match(
            m,
            table[k],
            table[p],
        ) by {
        if k == j {
            lemma_counts_on(b, after[j], a, hashes, m);
            law_served_exactly(a, b, m.topic_hash);
            assert(peer_match(m, table[k], table[i]));
        } else if k == i {
            lemma_counts_on(a, after[i], b, hashes, m);
            law_served_exactly(a, b, m.topic_hash);
            assert(peer_match(m, table[k], table[j]));
        } else {
            assert(after[k] == table[k]);
        }
    }
    assert forall|k: int, m: MatchEntry|
        #![trigger counts(table[k], m)]
        0 <= k < table.len() && counts(table[k], m) implies counts(after[k], m) by {
        if k == j {
            lemma_counts_on(b, after[j], a, hashes, m);
        } else if k == i {
            lemma_counts_on(a, after[i], b, hashes, m);
        } else {
            assert(after[k] == table[k]);
        }
    }
}

proof fn lemma_row_linked_on(table: Seq<NodeView>, i: int, n: int)
    requires
        table_sound(table),
        0 <= i < table.len(),
        n <= table.len(),
    ensures
        linked_on(table, linking::linked_row(table, i, n)),
    decreases n,
{
    if n <= 0 {
        lemma_linked_on_same(table);
    } else {
        let prev = linking::linked_row(table, i, n - 1);
        lemma_row_linked_on(table, i, n - 1);
        lemma_linked_on_sound(table, prev);
        if linking::links(prev, i, n - 1) {
            lemma_pair_linked_on(prev, i, n - 1);
            lemma_linked_on_trans(table, prev, linking::linked_pair(prev, i, n - 1));
        }
    }
}

proof fn lemma_rows_linked_on(table: Seq<NodeView>, n: int)
    requires
        table_sound(table),
        n <= table.len(),
    ensures
        linked_on(table, linking::linked_rows(table, n)),
    decreases n,
{
    if n <= 0 {
        lemma_linked_on_same(table);
    } else {
        let prev = linking::linked_rows(table, n - 1);
        lemma_rows_linked_on(table, n - 1);
        lemma_linked_on_sound(table, prev);
        lemma_row_linked_on(prev, n - 1, table.len() as int);
        lemma_linked_on_trans(table, prev, linking::linked_row(prev, n - 1, table.len() as int));
    }
}

/// The nodes in active slots are listed, and no others.
pub proof fn law_active_nodes_exactly(table: Seq<NodeView>, id: u64)
    ensures
        linking::active_ids(table).contains(id) <==> id != 0 && exists|k: int|
            0 <= k < table.len() && (#[trigger] table[k]).state == 2 && table[k].node_id == id,
    decreases table.len(),
{
    if table.len() > 0 {
        let init = table.drop_last();
        let rest = linking::active_ids(init);
        let all = linking::active_ids(table);
        law_active_nodes_exactly(init, id);
        if all.contains(id) {
            let x = choose|x: int| 0 <= x < all.len() && all[x] == id;
            if x < rest.len() {
                assert(rest[x] == id);
                let k = choose|k: int|
                    0 <= k < init.len() && (#[trigger] init[k]).state == 2 && init[k].node_id == id;
                assert(table[k] == init[k]);
            } else {
                assert(table[table.len() - 1].state == 2);
            }
        }
        if id != 0 && exists|k: int|
            0 <= k < table.len() && (#[trigger] table[k]).state == 2 && table[k].node_id == id {
            let k = choose|k: int|
                0 <= k < table.len() && (#[trigger] table[k]).state == 2 && table[k].node_id == id;
            if k < table.len() - 1 {
                assert(init[k] == table[k]);
                let x = choose|x: int| 0 <= x < rest.len() && rest[x] == id;
                assert(all[x] == id);
            } else {
                assert(all[rest.len() as int] == id);
            }
        }
    }
}

/// When topics change, only active nodes of one domain are linked: a match that a slot
/// gains stands for an active peer of its domain, a slot that is not active gains none,
/// and no active slot keeps a match of a node that is not active.
pub proof fn law_topic_updates_stay_in_their_domains(table: Seq<NodeView>, k: int, m: MatchEntry)
    requires
        table_sound(table),
        0 <= k < table.len(),
    ensures
        ({
            let after = linking::renewed(table);
            &&& after.len() == table.len()
            &&& alike(after[k], table[k])
            &&& after[k].state == table[k].state
            &&& table[k].state != 2 ==> (counts(after[k], m) <==> counts(table[k], m))
            &&& counts(after[k], m) && !counts(table[k], m) ==> exists|j: int|
                0 <= j < table.len() && j != k && (#[trigger] table[j]).state == 2 && peer_match(
                    m,
                    table[k],
                    table[j],
                )
            &&& table[k].state == 2 && counts(after[k], m) ==> m.node_id != 0 && exists|j: int|
                0 <= j < table.len() && (#[trigger] table[j]).state == 2 && table[j].node_id
                    == m.node_id
            &&& table[k].state == 2 && counts(table[k], m) && m.node_id != 0 && (exists|j: int|
                0 <= j < table.len() && (#[trigger] table[j]).state == 2 && table[j].node_id
                    == m.node_id) ==> counts(after[k], m)
        }),
{
    let full = linking::linked(table);
    let ids = linking::active_ids(table);
    lemma_rows_linked_on(table, table.len() as int);
    law_active_nodes_exactly(table, m.node_id);
    let after = linking::renewed(table);
    assert(full[k].shaped());
    match_list::law_dropped_exactly(full[k], ids, true, false, m);
    lemma_counts_contains(full[k], m);
    lemma_counts_contains(after[k], m);
    assert(counts(table[k], m) ==> counts(full[k], m));
    assert(counts(full[k], m) && !counts(table[k], m) ==> table[k].state == 2);
}

proof fn lemma_counts_contains(e: NodeView, m: MatchEntry)
    requires
        e.shaped(),
        e.match_count <= MAX_MATCHES,
    ensures
        counts(e, m) <==> e.remote_matches.subrange(0, e.match_count as int).contains(m),
{
    let s = e.remote_matches.subrange(0, e.match_count as int);
    if counts(e, m) {
        let c = choose|c: int| 0 <= c < e.match_count && #[trigger] e.remote_matches[c] == m;
        assert(s[c] == m);
    }
    if s.contains(m) {
        let c = choose|c: int| 0 <= c < s.len() && s[c] == m;
        assert(e.remote_matches[c] == m);
    }
}

/// When topics change, every publisher is linked with every active subscriber of its
/// domain that takes one of its topics: each of the two finds the other at every one of
/// its addresses. This is where no list came near its end.
pub proof fn law_topic_updates_link_all_peers(
    table: Seq<NodeView>,
    i: int,
    j: int,
    hash: u64,
    c: int,
)
    requires
        0 <= i < table.len(),
        0 <= j < table.len(),
        i != j,
        table_sound(table),
        table[i].state == 2 && table[i].node_id != 0,
        table[j].state == 2 && table[j].node_id != 0,
        table[j].domain_id == table[i].domain_id,
        takes(table[i], table[j], hash),
        0 <= c < 8,
        forall|k: int|
            0 <= k < table.len() && (#[trigger] table[k]).state == 2 ==> linking::linked(
                table,
            )[k].match_count <= 1016,
    ensures
        c < table[i].quic_addr_count ==> finds(
            linking::renewed(table)[j],
            table[i].node_id,
            hash,
            table[i].quic_addrs[c],
        ),
        c < table[j].quic_addr_count ==> finds(
            linking::renewed(table)[i],
            table[j].node_id,
            hash,
            table[j].quic_addrs[c],
        ),
{
    let n = table.len() as int;
    let full = linking::linked(table);
    assert(discovery_shm::table_shaped(table));
    lemma_rows_linked_on(table, n);
    assert(full[i].shaped() && full[j].shaped());
    assert forall|k: int| 0 <= k < full.len() && (#[trigger] full[k]).state == 2 implies linking::roomy(
        full[k],
    ) by {
        assert(table[k].state == 2);
    }
    assert(linking::table_roomy(full));
    law_served_exactly(table[i], table[j], hash);
    let hashes = linking::served_hashes(table[i].pubs(), table[j].subs());
    let h = choose|h: int| 0 <= h < hashes.len() && hashes[h] == hash;
    assert(table[i].pub_count != 0 && table[j].sub_count != 0);
    linking::lemma_rows_acquaint(table, n);
    assert(linking::links(table, i, j));
    assert(linking::acquainted(full, i, j));
    assert(alike(full[i], table[i]) && alike(full[j], table[j]));
    assert(linking::served_hashes(full[i].pubs(), full[j].subs()) == hashes);
    assert(linking::knows(full[j], full[i], hashes[h]));
    assert(linking::knows(full[i], full[j], hashes[h]));
    if c < table[i].quic_addr_count {
        lemma_known_stays(table, j, i, hash, c);
    }
    if c < table[j].quic_addr_count {
        lemma_known_stays(table, i, j, hash, c);
    }
}

proof fn lemma_known_stays(table: Seq<NodeView>, k: int, p: int, hash: u64, c: int)
    requires
        0 <= k < table.len(),
        0 <= p < table.len(),
        table_sound(table),
        table[k].state == 2,
        table[p].state == 2 && table[p].node_id != 0,
        0 <= c < 8,
        c < table[p].quic_addr_count,
        linking::knows(linking::linked(table)[k], linking::linked(table)[p], hash),
    ensures
        finds(linking::renewed(table)[k], table[p].node_id, hash, table[p].quic_addrs[c]),
{
    let full = linking::linked(table);
    let after = linking::renewed(table);
    let ids = linking::active_ids(table);
    lemma_rows_linked_on(table, table.len() as int);
    assert(full[k].shaped() && full[p].shaped());
    assert(alike(full[p], table[p]));
    let addr = table[p].quic_addrs[c];
    assert(linking::reach(full[p])[c] == addr);
    let known = linking::counted(full[k]);
    let x = choose|x: int|
        0 <= x < known.len() && (#[trigger] known[x]).node_id == table[p].node_id
            && known[x].topic_hash == hash && known[x].addr == addr;
    let m = known[x];
    assert(full[k].remote_matches[x] == m);
    law_active_nodes_exactly(table, table[p].node_id);
    match_list::law_dropped_exactly(full[k], ids, true, false, m);
    lemma_counts_contains(full[k], m);
    lemma_counts_contains(after[k], m);
    let y = choose|y: int| 0 <= y < after[k].match_count && #[trigger] after[k].remote_matches[y] == m;
    assert(after[k].remote_matches[y].node_id == table[p].node_id);
}

/// A slot's generation counts up by one and starts over behind the last that eight bytes
/// can hold.
pub proof fn law_slot_generations_count_up(g: u64)
    ensures
        match_list::next_generation(g) as int == (g + 1) % 0x1_0000_0000_0000_0000,
        match_list::next_generation(g) != g,
{
}

/// A list gets a match for each address behind what it holds, in the order of the
/// addresses, as far as 1024 allow.
pub proof fn law_matches_for_all_addresses(
    ms: Seq<MatchEntry>,
    node_id: u64,
    hash: u64,
    port: u16,
    addrs: Seq<[u8; 4]>,
)
    ensures
        ({
            let r = linking::with_all(ms, node_id, hash, port, addrs);
            &&& ms.is_prefix_of(r)
            &&& ms.len() + addrs.len() <= 1024 ==> r.len() == ms.len() + addrs.len()
            &&& ms.len() <= 1024 < ms.len() + addrs.len() ==> r.len() == 1024
            &&& ms.len() > 1024 ==> r.len() == ms.len()
            &&& forall|k: int|
                #![trigger r[ms.len() + k]]
                0 <= k < r.len() - ms.len() ==> r[ms.len() + k].node_id == node_id && r[ms.len()
                    + k].topic_hash == hash && r[ms.len() + k].port == port && r[ms.len() + k].addr
                    == addrs[k]
        }),
{
    let r = linking::with_all(ms, node_id, hash, port, addrs);
    assert(r.subrange(0, ms.len() as int) =~= ms);
}

/// A list gets a match for each address that it does not have for the node and the topic,
/// behind what it holds and as far as 1024 allow: every address is then found, and none is
/// added that was there.
pub proof fn law_matches_for_missing_addresses(
    ms: Seq<MatchEntry>,
    node_id: u64,
    hash: u64,
    port: u16,
    addrs: Seq<[u8; 4]>,
)
    ensures
        ({
            let r = linking::with_missing(ms, node_id, hash, port, addrs);
            &&& ms.len() <= r.len()
            &&& r.len() <= ms.len() || r.len() <= 1024
            &&& forall|k: int| 0 <= k < ms.len() ==> (#[trigger] r[k]) == ms[k]
            &&& forall|k: int|
                ms.len() <= k < r.len() ==> (#[trigger] r[k]).node_id == node_id && r[k].topic_hash
                    == hash && r[k].port == port && addrs.contains(r[k].addr)
            &&& forall|j: int, k: int|
                0 <= j < k && ms.len() <= k < r.len() && (#[trigger] r[j]).node_id == node_id
                    && r[j].topic_hash == hash ==> r[j].addr != (#[trigger] r[k]).addr
            &&& r.len() < 1024 ==> forall|a: [u8; 4]|
                #[trigger]
                addrs.contains(a) ==> exists|j: int|
                    0 <= j < r.len() && (#[trigger] r[j]).node_id == node_id && r[j].topic_hash
                        == hash && r[j].addr == a
        }),
    decreases addrs.len(),
{
    if addrs.len() > 0 {
        let init = addrs.drop_last();
        let last = addrs.last();
        let prev = linking::with_missing(ms, node_id, hash, port, init);
        let r = linking::with_missing(ms, node_id, hash, port, addrs);
        law_matches_for_missing_addresses(ms, node_id, hash, port, init);
        assert forall|a: [u8; 4]| #[trigger] addrs.contains(a) implies init.contains(a) || a
            == last by {
            let k = choose|k: int| 0 <= k < addrs.len() && addrs[k] == a;
            if k < init.len() {
                assert(init[k] == a);
            }
        }
        assert forall|a: [u8; 4]| init.contains(a) implies #[trigger] addrs.contains(a) by {
            let k = choose|k: int| 0 <= k < init.len() && init[k] == a;
            assert(addrs[k] == a);
        }
        assert(addrs[addrs.len() - 1] == last);
        assert(addrs.contains(last));
        assert forall|k: int| 0 <= k < prev.len() implies #[trigger] r[k] == prev[k] by {}
        if r.len() > prev.len() {
            assert(r[prev.len() as int].addr == last);
        }
        if r.len() < 1024 {
            assert forall|a: [u8; 4]| #[trigger] addrs.contains(a) implies exists|j: int|
                0 <= j < r.len() && (#[trigger] r[j]).node_id == node_id && r[j].topic_hash == hash
                    && r[j].addr == a by {
                if init.contains(a) {
                    let j = choose|j: int|
                        0 <= j < prev.len() && (#[trigger] prev[j]).node_id == node_id
                            && prev[j].topic_hash == hash && prev[j].addr == a;
                    assert(r[j] == prev[j]);
                } else if linking::has_match(prev, node_id, hash, last) {
                    let j = choose|j: int|
                        0 <= j < prev.len() && (#[trigger] prev[j]).node_id == node_id
                            && prev[j].topic_hash == hash && prev[j].addr == last;
                    assert(r[j] == prev[j]);
                } else {
                    assert(r[prev.len() as int].addr == a);
                }
            }
        }
    }
}

/// New matches are for addresses that are not known yet, of the node, the topic and the
/// port that are told.
proof fn lemma_fresh_matches(
    existing: Seq<MatchEntry>,
    node_id: u64,
    hash: u64,
    port: u16,
    addrs: Seq<[u8; 4]>,
)
    ensures
        ({
            let r = linking::fresh_matches(existing, node_id, hash, port, addrs);
            &&& r.len() <= addrs.len()
            &&& forall|k: int|
                0 <= k < r.len() ==> (#[trigger] r[k]).node_id == node_id && r[k].topic_hash == hash
                    && r[k].port == port && addrs.contains(r[k].addr) && !linking::has_match(
                    existing,
                    node_id,
                    hash,
                    r[k].addr,
                )
        }),
    decreases addrs.len(),
{
    if addrs.len() > 0 {
        let init = addrs.drop_last();
        lemma_fresh_matches(existing, node_id, hash, port, init);
        assert(addrs[addrs.len() - 1] == addrs.last());
        assert forall|a: [u8; 4]| init.contains(a) implies #[trigger] addrs.contains(a) by {
            let k = choose|k: int| 0 <= k < init.len() && init[k] == a;
            assert(addrs[k] == a);
        }
    }
}

/// A slot that learns of a node for a topic keeps what it counts and goes on counting
/// behind it, up to 1024: only matches of that node and topic, at that node's port and one
/// of its addresses, and only where it did not find that address before. Nothing else of
/// the slot changes.
pub proof fn law_slot_learns_what_is_new(e: NodeView, from: NodeView, hash: u64, c: int)
    requires
        e.shaped() && e.match_count <= 1024,
        from.shaped(),
    ensures
        ({
            let after = linking::learned(e, from, hash);
            let m = after.remote_matches[c];
            &&& after.shaped()
            &&& alike(after, e) && after.state == e.state && after.response_gen == e.response_gen
            &&& e.match_count <= after.match_count <= 1024
            &&& after.match_count == e.match_count ==> after == e
            &&& 0 <= c < e.match_count ==> m == e.remote_matches[c]
            &&& e.match_count <= c < after.match_count ==> m.node_id == from.node_id && m.topic_hash
                == hash && m.port == from.quic_port && !finds(e, from.node_id, hash, m.addr)
                && exists|a: int|
                0 <= a < from.quic_addr_count && a < 8 && #[trigger] from.quic_addrs[a] == m.addr
        }),
{
    let after = linking::learned(e, from, hash);
    let count = e.match_count as int;
    let known = e.remote_matches.subrange(0, count);
    let addrs = linking::first_addrs(linking::reach(from), linking::room(count));
    let new = linking::fresh_matches(known, from.node_id, hash, from.quic_port, addrs);
    lemma_fresh_matches(known, from.node_id, hash, from.quic_port, addrs);
    if new.len() > 0 {
        assert(count + new.len() <= 1024);
        if count <= c < after.match_count {
            let m = after.remote_matches[c];
            assert(m == new[c - count]);
            let a = choose|a: int| 0 <= a < addrs.len() && addrs[a] == m.addr;
            assert(from.quic_addrs[a] == m.addr);
            if finds(e, from.node_id, hash, m.addr) {
                let d = choose|d: int|
                    0 <= d < e.match_count && (#[trigger] e.remote_matches[d]).node_id
                        == from.node_id && e.remote_matches[d].topic_hash == hash
                        && e.remote_matches[d].addr == m.addr;
                assert(known[d] == e.remote_matches[d]);
                assert(linking::has_match(known, from.node_id, hash, m.addr));
            }
        }
    }
}

/// A slot that is told of a node steps its generation once for each topic for which it
/// learned something: not at all exactly if it counts no more than before.
pub proof fn law_learning_steps_the_generation(
    e: NodeView,
    from: NodeView,
    hashes: Seq<u64>,
) -> (steps: nat)
    requires
        e.shaped() && e.match_count <= 1024,
        from.shaped(),
    ensures
        ({
            let after = linking::told_each(e, from, hashes);
            &&& after.shaped() && after.match_count <= 1024
            &&& alike(after, e) && after.state == e.state
            &&& e.match_count <= after.match_count
            &&& steps <= hashes.len()
            &&& after.response_gen as int == (e.response_gen + steps) % 0x1_0000_0000_0000_0000
            &&& steps == 0 <==> after.match_count == e.match_count
        }),
    decreases hashes.len(),
{
    if hashes.len() == 0 {
        0
    } else {
        let before = law_learning_steps_the_generation(e, from, hashes.drop_last());
        let prev = linking::told_each(e, from, hashes.drop_last());
        law_slot_learns_what_is_new(prev, from, hashes.last(), 0);
        let next = linking::learned(prev, from, hashes.last());
        law_slot_generations_count_up(next.response_gen);
        if next.match_count != prev.match_count {
            let g = prev.response_gen as int;
            let b = before as int;
            let o = e.response_gen as int;
            assert((g + 1) % 0x1_0000_0000_0000_0000 == (o + b + 1) % 0x1_0000_0000_0000_0000)
                by (nonlinear_arith)
                requires
                    g == (o + b) % 0x1_0000_0000_0000_0000,
            ;
            before + 1
        } else {
            before
        }
    }
}

/// A node that registers has its own generation stepped once, and every other slot that
/// counts more than before has another generation, so that both nodes look again.
pub proof fn law_registration_is_noticed(table: Seq<NodeView>, i: int, j: int)
    requires
        0 <= i < table.len(),
        0 <= j < table.len(),
        i != j,
        table_sound(table),
    ensures
        linking::registered(table, i)[i].response_gen as int == (table[i].response_gen + 1)
            % 0x1_0000_0000_0000_0000,
        linking::registered(table, i)[j].match_count != table[j].match_count
            <==> linking::registered(table, i)[j].response_gen != table[j].response_gen,
{
    law_slot_generations_count_up(table[i].response_gen);
    let started = table.update(i, NodeView { state: 2, ..table[i] });
    assert(started[j] == table[j]);
    assert(started[i].shaped() && started[i].counts_fit());
    if linking::meets(started, i, j) {
        let hashes = linking::served_hashes(started[i].pubs(), started[j].subs());
        lemma_served_count(started[i].pubs(), started[j].subs());
        let steps = law_learning_steps_the_generation(started[j], started[i], hashes);
        assert(steps <= 256);
        let after = linking::told_each(started[j], started[i], hashes);
        if steps > 0 && after.response_gen == table[j].response_gen {
            let g = table[j].response_gen as int;
            let s = steps as int;
            assert(false) by (nonlinear_arith)
                requires
                    g == (g + s) % 0x1_0000_0000_0000_0000,
                    0 < s <= 256,
                    0 <= g < 0x1_0000_0000_0000_0000,
            ;
        }
    }
}

proof fn lemma_served_count(
    pubs: Seq<discovery_shm::TopicView>,
    subs: Seq<discovery_shm::TopicView>,
)
    ensures
        linking::served_hashes(pubs, subs).len() <= pubs.len(),
    decreases pubs.len(),
{
    if pubs.len() > 0 {
        lemma_served_count(pubs.drop_last(), subs);
    }
}

/// That something changed is told exactly if it did: a node was waiting to be registered,
/// or a slot counts another number of matches, or has another generation than before.
pub proof fn law_changes_are_told(before: Seq<NodeView>, after: Seq<NodeView>, k: int)
    requires
        0 <= k < before.len(),
    ensures
        before[k].state == 1 ==> linking::any_pending(before),
        (forall|i: int| 0 <= i < before.len() ==> (#[trigger] before[i]).state != 1)
            ==> !linking::any_pending(before),
        before[k].match_count != after[k].match_count ==> linking::any_recounted(before, after),
        before[k].response_gen != after[k].response_gen ==> match_list::any_stepped(before, after),
        !linking::any_recounted(before, before) && !match_list::any_stepped(before, before),
{
}

/// Served topics come in the order of the publications, each as often as it is published
/// and taken.
pub proof fn law_served_in_order(
    a: Seq<discovery_shm::TopicView>,
    b: Seq<discovery_shm::TopicView>,
    subs: Seq<discovery_shm::TopicView>,
)
    ensures
        linking::served_hashes(a + b, subs) == linking::served_hashes(a, subs)
            + linking::served_hashes(b, subs),
        a.len() == 1 && (exists|k: int|
            0 <= k < subs.len() && (#[trigger] subs[k]).hash == a[0].hash
                && discovery_shm::topics_qos_compatible(a[0], subs[k])) ==> linking::served_hashes(
            a,
            subs,
        ) == seq![a[0].hash],
        a.len() == 1 && !(exists|k: int|
            0 <= k < subs.len() && (#[trigger] subs[k]).hash == a[0].hash
                && discovery_shm::topics_qos_compatible(a[0], subs[k])) ==> linking::served_hashes(
            a,
            subs,
        ).len() == 0,
    decreases b.len(),
{
    if a.len() == 1 {
        assert(a.drop_last() =~= Seq::empty());
        assert(linking::served_hashes(a.drop_last(), subs) =~= Seq::empty());
        if linking::served(a[0], subs) {
            assert(linking::served_hashes(a, subs) =~= seq![a[0].hash]);
        }
    }
    if b.len() == 0 {
        assert(a + b =~= a);
        assert(linking::served_hashes(a, subs) + linking::served_hashes(b, subs)
            =~= linking::served_hashes(a, subs));
    } else {
        law_served_in_order(a, b.drop_last(), subs);
        assert((a + b).drop_last() =~= a + b.drop_last());
        assert(linking::served_hashes(a + b, subs) =~= linking::served_hashes(a, subs)
            + linking::served_hashes(b, subs));
    }
}

} // verus!
