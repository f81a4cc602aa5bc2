//! The match lists of the node table: how addresses are added to them and how
//! entries are dropped from them.
use vstd::prelude::*;

use crate::daemon::discovery_shm::{MatchEntry, NodeTableEntry, MAX_MATCHES};
#[allow(unused_imports)]
use crate::daemon::discovery_shm;
use crate::daemon::discovery_shm::{NodeView, SlotState};

verus! {

/// The value of an atomic 64-bit counter after one more step.
pub open spec fn next_generation(g: u64) -> u64 {
    if g == u64::MAX {
        0
    } else {
        (g + 1) as u64
    }
}

/// Whether `m` stays in a list that keeps exactly the nodes in `ids` (`listed`), or
/// exactly those that are not (otherwise).
pub open spec fn stays(m: MatchEntry, ids: Seq<u64>, listed: bool) -> bool {
    ids.contains(m.node_id) == listed
}

/// The entries that stay, in order.
pub open spec fn kept(ms: Seq<MatchEntry>, ids: Seq<u64>, listed: bool) -> Seq<MatchEntry>
    decreases ms.len(),
{
    if ms.len() == 0 {
        Seq::empty()
    } else {
        let rest = kept(ms.drop_last(), ids, listed);
        if stays(ms.last(), ids, listed) {
            rest.push(ms.last())
        } else {
            rest
        }
    }
}

/// `n` unused entries.
pub open spec fn blanks(n: nat) -> Seq<MatchEntry> {
    Seq::new(n, |i: int| discovery_shm::blank_match())
}

/// `ms` with the entries that stay among the first `limit` moved to the front, and
/// the room that this leaves among those `limit` blank.
pub open spec fn compacted(
    ms: Seq<MatchEntry>,
    limit: int,
    ids: Seq<u64>,
    listed: bool,
) -> Seq<MatchEntry> {
    let k = kept(ms.subrange(0, limit), ids, listed);
    k + blanks((limit - k.len()) as nat) + ms.subrange(limit, ms.len() as int)
}

pub proof fn lemma_kept_len(ms: Seq<MatchEntry>, ids: Seq<u64>, listed: bool)
    ensures
        kept(ms, ids, listed).len() <= ms.len(),
    decreases ms.len(),
{
    if ms.len() > 0 {
        lemma_kept_len(ms.drop_last(), ids, listed);
    }
}

/// What is kept is exactly what stays.
pub proof fn law_kept_exactly(ms: Seq<MatchEntry>, ids: Seq<u64>, listed: bool, m: MatchEntry)
    ensures
        kept(ms, ids, listed).contains(m) <==> ms.contains(m) && stays(m, ids, listed),
    decreases ms.len(),
{
    if ms.len() > 0 {
        let init = ms.drop_last();
        let rest = kept(init, ids, listed);
        law_kept_exactly(init, ids, listed, m);
        if rest.contains(m) {
            let k = choose|k: int| 0 <= k < rest.len() && rest[k] == m;
            assert(kept(ms, ids, listed)[k] == m);
        }
        if init.contains(m) {
            let k = choose|k: int| 0 <= k < init.len() && init[k] == m;
            assert(ms[k] == m);
        }
        if m == ms.last() {
            assert(ms[ms.len() - 1] == m);
            if stays(m, ids, listed) {
                assert(kept(ms, ids, listed)[rest.len() as int] == m);
            }
        } else if ms.contains(m) {
            let k = choose|k: int| 0 <= k < ms.len() && ms[k] == m;
            assert(init[k] == m);
        }
        if kept(ms, ids, listed).contains(m) && !rest.contains(m) {
            let k = choose|k: int|
                0 <= k < kept(ms, ids, listed).len() && kept(ms, ids, listed)[k] == m;
            if k < rest.len() {
                assert(rest[k] == m);
            }
        }
    }
}

/// Whether `ids` holds `id`.
pub fn id_listed(ids: &[u64], id: u64) -> (r: bool)
    ensures
        r == ids@.contains(id),
{
    let mut i: usize = 0;
    while i < ids.len()
        invariant
            i <= ids@.len(),
            forall|k: int| 0 <= k < i ==> ids@[k] != id,
        decreases ids@.len() - i,
    {
        if ids[i] == id {
            return true;
        }
        i += 1;
    }
    false
}

/// Compacts the first `limit` entries and says how many stay.
pub fn compact_matches(ms: &mut Vec<MatchEntry>, limit: usize, ids: &[u64], listed: bool) -> (r:
    usize)
    requires
        limit <= old(ms)@.len(),
    ensures
        final(ms)@ == compacted(old(ms)@, limit as int, ids@, listed),
        r == kept(old(ms)@.subrange(0, limit as int), ids@, listed).len(),
        r <= limit,
{
    let ghost before = ms@;
    let mut write_idx: usize = 0;
    let mut read_idx: usize = 0;
    proof {
        assert(before.subrange(0, 0) =~= Seq::empty());
    }
    while read_idx < limit
        invariant
            read_idx <= limit <= before.len(),
            ms@.len() == before.len(),
            write_idx == kept(before.subrange(0, read_idx as int), ids@, listed).len(),
            write_idx <= read_idx,
            forall|k: int|
                0 <= k < write_idx ==> (#[trigger] ms@[k]) == kept(
                    before.subrange(0, read_idx as int),
                    ids@,
                    listed,
                )[k],
            forall|k: int| read_idx <= k < before.len() ==> (#[trigger] ms@[k]) == before[k],
        decreases limit - read_idx,
    {
        proof {
            let longer = before.subrange(0, read_idx + 1);
            assert(longer.drop_last() =~= before.subrange(0, read_idx as int));
            assert(longer.last() == before[read_idx as int]);
        }
        let m: MatchEntry = ms[read_idx];
        if id_listed(ids, m.node_id) == listed {
            if write_idx != read_idx {
                ms[write_idx] = m;
            }
            write_idx += 1;
        }
        read_idx += 1;
    }
    let ghost k = kept(before.subrange(0, limit as int), ids@, listed);
    let mut i: usize = write_idx;
    while i < limit
        invariant
            write_idx <= i <= limit <= before.len(),
            ms@.len() == before.len(),
            write_idx == k.len(),
            forall|j: int| 0 <= j < write_idx ==> (#[trigger] ms@[j]) == k[j],
            forall|j: int| write_idx <= j < i ==> (#[trigger] ms@[j]) == discovery_shm::blank_match(),
            forall|j: int| limit <= j < before.len() ==> (#[trigger] ms@[j]) == before[j],
        decreases limit - i,
    {
        ms[i] = MatchEntry::default();
        i += 1;
    }
    proof {
        assert(ms@ =~= compacted(before, limit as int, ids@, listed));
    }
    write_idx
}

/// How many of a slot's matches are looked at: at most as many as there is room for.
pub open spec fn match_limit(e: NodeView) -> int {
    if e.match_count <= MAX_MATCHES {
        e.match_count as int
    } else {
        MAX_MATCHES as int
    }
}

/// An active slot without the matches that do not stay. Where one went, the count
/// follows and the slot's generation steps. With `clip`, a count beyond the list is
/// no reason to step.
pub open spec fn drop_matches(e: NodeView, ids: Seq<u64>, listed: bool, clip: bool) -> NodeView {
    let limit = match_limit(e);
    let k = kept(e.remote_matches.subrange(0, limit), ids, listed);
    if e.state == SlotState::Active.spec_value() && k.len() < (if clip {
        limit
    } else {
        e.match_count as int
    }) {
        NodeView {
            remote_matches: compacted(e.remote_matches, limit, ids, listed),
            match_count: k.len() as u32,
            response_gen: next_generation(e.response_gen),
            ..e
        }
    } else {
        e
    }
}

/// Drops the matches of one slot that do not stay, and says whether that changed it.
pub fn drop_slot_matches(entry: &mut NodeTableEntry, ids: &[u64], listed: bool, clip: bool) -> (r:
    bool)
    requires
        old(entry)@.shaped(),
    ensures
        final(entry)@ == drop_matches(old(entry)@, ids@, listed, clip),
        final(entry)@.shaped(),
        r == (final(entry)@.response_gen != old(entry)@.response_gen),
{
    if entry.state != SlotState::Active.value() {
        return false;
    }
    let ghost before = entry@;
    let limit: usize = if entry.match_count as usize <= MAX_MATCHES {
        entry.match_count as usize
    } else {
        MAX_MATCHES
    };
    let count: usize = if clip {
        limit
    } else {
        entry.match_count as usize
    };
    let ghost k = kept(before.remote_matches.subrange(0, limit as int), ids@, listed);
    let stay: usize = compact_matches(&mut entry.remote_matches, limit, ids, listed);
    proof {
        lemma_compacted_full(before.remote_matches, limit as int, ids@, listed);
    }
    if stay < count {
        entry.match_count = stay as u32;
        entry.response_gen = entry.response_gen.wrapping_add(1);
        proof {
            assert(entry@ =~= drop_matches(before, ids@, listed, clip));
        }
        true
    } else {
        proof {
            assert(entry@ =~= before);
        }
        false
    }
}

/// Where every entry stays, compacting changes nothing.
pub proof fn lemma_compacted_full(ms: Seq<MatchEntry>, limit: int, ids: Seq<u64>, listed: bool)
    requires
        0 <= limit <= ms.len(),
    ensures
        kept(ms.subrange(0, limit), ids, listed).len() == limit ==> compacted(
            ms,
            limit,
            ids,
            listed,
        ) == ms,
        compacted(ms, limit, ids, listed).len() == ms.len(),
{
    let head = ms.subrange(0, limit);
    lemma_kept_len(head, ids, listed);
    if kept(head, ids, listed).len() == limit {
        lemma_kept_all(head, ids, listed);
        assert(compacted(ms, limit, ids, listed) =~= ms);
    }
}

/// A list that loses nothing is kept as it is.
proof fn lemma_kept_all(ms: Seq<MatchEntry>, ids: Seq<u64>, listed: bool)
    requires
        kept(ms, ids, listed).len() == ms.len(),
    ensures
        kept(ms, ids, listed) == ms,
    decreases ms.len(),
{
    if ms.len() > 0 {
        lemma_kept_len(ms.drop_last(), ids, listed);
        lemma_kept_all(ms.drop_last(), ids, listed);
        assert(ms.drop_last().push(ms.last()) =~= ms);
    }
}

/// A list of which every entry stays loses nothing.
pub proof fn lemma_all_kept(ms: Seq<MatchEntry>, ids: Seq<u64>, listed: bool)
    requires
        forall|k: int| 0 <= k < ms.len() ==> stays(#[trigger] ms[k], ids, listed),
    ensures
        kept(ms, ids, listed) == ms,
    decreases ms.len(),
{
    if ms.len() > 0 {
        let d = ms.drop_last();
        assert forall|k: int| 0 <= k < d.len() implies stays(#[trigger] d[k], ids, listed) by {
            assert(d[k] == ms[k]);
        }
        lemma_all_kept(d, ids, listed);
        assert(stays(ms[ms.len() - 1], ids, listed));
        assert(d.push(ms.last()) =~= ms);
    }
}

/// `drop_matches` on every slot.
pub open spec fn drop_matches_everywhere(
    table: Seq<NodeView>,
    ids: Seq<u64>,
    listed: bool,
    clip: bool,
) -> Seq<NodeView> {
    table.map_values(|e: NodeView| drop_matches(e, ids, listed, clip))
}

/// Whether some slot has another generation than before.
pub open spec fn any_stepped(before: Seq<NodeView>, after: Seq<NodeView>) -> bool {
    exists|k: int|
        0 <= k < before.len() && (#[trigger] before[k]).response_gen != after[k].response_gen
}

/// Drops the matches that do not stay from every active slot, and says whether any
/// slot changed.
pub fn drop_table_matches(
    table: &mut Vec<NodeTableEntry>,
    ids: &[u64],
    listed: bool,
    clip: bool,
) -> (r: bool)
    requires
        discovery_shm::table_shaped(discovery_shm::table_view(old(table)@)),
    ensures
        discovery_shm::table_view(final(table)@) == drop_matches_everywhere(
            discovery_shm::table_view(old(table)@),
            ids@,
            listed,
            clip,
        ),
        discovery_shm::table_shaped(discovery_shm::table_view(final(table)@)),
        r == any_stepped(discovery_shm::table_view(old(table)@), discovery_shm::table_view(final(table)@)),
{
    let ghost before = discovery_shm::table_view(table@);
    let mut changed = false;
    let mut i: usize = 0;
    while i < table.len()
        invariant
            i <= table@.len(),
            table@.len() == before.len(),
            discovery_shm::table_shaped(before),
            forall|k: int|
                0 <= k < i ==> (#[trigger] table@[k])@ == drop_matches(
                    before[k],
                    ids@,
                    listed,
                    clip,
                ) && table@[k]@.shaped(),
            forall|k: int| i <= k < before.len() ==> (#[trigger] table@[k])@ == before[k],
            changed == (exists|k: int|
                0 <= k < i && (#[trigger] before[k]).response_gen != table@[k].response_gen),
        decreases table@.len() - i,
    {
        let ghost prior = table@;
        assert(table@[i as int]@ == before[i as int]);
        assert(before[i as int].shaped());
        let stepped = drop_slot_matches(&mut table[i], ids, listed, clip);
        proof {
            assert forall|k: int| 0 <= k < i implies (#[trigger] table@[k]) == prior[k] by {}
            if stepped {
                assert(before[i as int].response_gen != table@[i as int].response_gen);
            }
        }
        changed = changed || stepped;
        i += 1;
    }
    proof {
        let after = discovery_shm::table_view(table@);
        assert(after =~= drop_matches_everywhere(before, ids@, listed, clip));
        assert forall|k: int| 0 <= k < after.len() implies (#[trigger] after[k]).shaped() by {
            assert(table@[k]@.shaped());
        }
        assert forall|k: int| 0 <= k < before.len() implies after[k].response_gen
            == (#[trigger] table@[k]).response_gen by {}
    }
    changed
}

/// The table after the matches of each node in `ids` went, one node after the other.
pub open spec fn without_nodes(table: Seq<NodeView>, ids: Seq<u64>, clip: bool) -> Seq<NodeView>
    decreases ids.len(),
{
    if ids.len() == 0 {
        table
    } else {
        drop_matches_everywhere(
            without_nodes(table, ids.drop_last(), clip),
            seq![ids.last()],
            false,
            clip,
        )
    }
}

/// Drops the matches of each node in `ids`, one node after the other.
pub fn remove_matches_for_nodes(table: &mut Vec<NodeTableEntry>, ids: &[u64], clip: bool)
    requires
        discovery_shm::table_shaped(discovery_shm::table_view(old(table)@)),
    ensures
        discovery_shm::table_view(final(table)@) == without_nodes(discovery_shm::table_view(old(table)@), ids@, clip),
        discovery_shm::table_shaped(discovery_shm::table_view(final(table)@)),
        final(table)@.len() == old(table)@.len(),
{
    let ghost before = discovery_shm::table_view(table@);
    let mut i: usize = 0;
    proof {
        assert(ids@.subrange(0, 0) =~= Seq::empty());
    }
    while i < ids.len()
        invariant
            i <= ids@.len(),
            discovery_shm::table_view(table@) == without_nodes(before, ids@.subrange(0, i as int), clip),
            discovery_shm::table_shaped(discovery_shm::table_view(table@)),
            discovery_shm::table_view(table@).len() == before.len(),
        decreases ids@.len() - i,
    {
        proof {
            assert(ids@.subrange(0, i + 1).drop_last() =~= ids@.subrange(0, i as int));
        }
        let one: [u64; 1] = [ids[i]];
        drop_table_matches(table, one.as_slice(), false, clip);
        proof {
            assert(one@ =~= seq![ids@[i as int]]);
        }
        i += 1;
    }
    proof {
        assert(ids@.subrange(0, i as int) =~= ids@);
    }
}

/// Every entry that is kept stays.
proof fn lemma_kept_stays(ms: Seq<MatchEntry>, ids: Seq<u64>, listed: bool)
    ensures
        forall|k: int|
            0 <= k < kept(ms, ids, listed).len() ==> stays(
                #[trigger] kept(ms, ids, listed)[k],
                ids,
                listed,
            ),
    decreases ms.len(),
{
    if ms.len() > 0 {
        lemma_kept_stays(ms.drop_last(), ids, listed);
        let rest = kept(ms.drop_last(), ids, listed);
        assert forall|k: int| 0 <= k < kept(ms, ids, listed).len() implies stays(
            #[trigger] kept(ms, ids, listed)[k],
            ids,
            listed,
        ) by {
            if k < rest.len() {
                assert(kept(ms, ids, listed)[k] == rest[k]);
            }
        }
    }
}

/// After the matches that do not stay were dropped from an active slot, every match
/// that the slot counts stays.
pub proof fn law_dropped_matches_are_gone(e: NodeView, ids: Seq<u64>, listed: bool, clip: bool)
    requires
        e.shaped(),
        e.state == SlotState::Active.spec_value(),
        clip ==> e.match_count <= MAX_MATCHES,
    ensures
        drop_matches(e, ids, listed, clip).match_count <= MAX_MATCHES,
        forall|k: int|
            0 <= k < drop_matches(e, ids, listed, clip).match_count ==> stays(
                #[trigger] drop_matches(e, ids, listed, clip).remote_matches[k],
                ids,
                listed,
            ),
{
    let limit = match_limit(e);
    let head = e.remote_matches.subrange(0, limit);
    let k = kept(head, ids, listed);
    lemma_kept_len(head, ids, listed);
    lemma_kept_stays(head, ids, listed);
    let d = drop_matches(e, ids, listed, clip);
    if k.len() == limit {
        lemma_kept_all(head, ids, listed);
    }
    assert forall|i: int| 0 <= i < d.match_count implies stays(
        #[trigger] d.remote_matches[i],
        ids,
        listed,
    ) by {
        assert(d.remote_matches[i] == k[i]);
    }
}

/// Dropping matches from an active slot drops exactly the counted ones whose node is
/// listed, or is not listed where the listed ones are to stay; nothing new is counted,
/// and nothing else of the slot changes.
pub proof fn law_dropped_exactly(
    e: NodeView,
    ids: Seq<u64>,
    listed: bool,
    clip: bool,
    m: MatchEntry,
)
    requires
        e.shaped(),
        e.match_count <= MAX_MATCHES,
    ensures
        ({
            let d = drop_matches(e, ids, listed, clip);
            let before = e.remote_matches.subrange(0, e.match_count as int);
            let after = d.remote_matches.subrange(0, d.match_count as int);
            &&& d.shaped()
            &&& d.match_count <= e.match_count
            &&& d == (NodeView {
                remote_matches: d.remote_matches,
                match_count: d.match_count,
                response_gen: d.response_gen,
                ..e
            })
            &&& e.state == 2 ==> (after.contains(m) <==> before.contains(m) && ids.contains(
                m.node_id,
            ) == listed)
            &&& e.state != 2 ==> d == e
            &&& d.match_count == e.match_count <==> d == e
            &&& d.match_count < e.match_count && e.response_gen < u64::MAX ==> d.response_gen
                == e.response_gen + 1
        }),
{
    let limit = match_limit(e);
    let head = e.remote_matches.subrange(0, limit);
    let k = kept(head, ids, listed);
    let d = drop_matches(e, ids, listed, clip);
    lemma_kept_len(head, ids, listed);
    law_kept_exactly(head, ids, listed, m);
    lemma_compacted_full(e.remote_matches, limit, ids, listed);
    if k.len() == limit {
        lemma_kept_all(head, ids, listed);
    } else {
        assert(compacted(e.remote_matches, limit, ids, listed).subrange(0, k.len() as int) =~= k);
    }
}

/// After nodes are dropped, an active slot counts exactly the matches that it counted
/// before and that name none of them; every other slot stays as it is, and so does
/// everything but the matches.
pub proof fn law_nodes_are_dropped_exactly(
    table: Seq<NodeView>,
    ids: Seq<u64>,
    clip: bool,
    i: int,
    m: MatchEntry,
)
    requires
        0 <= i < table.len(),
        table[i].shaped(),
        table[i].match_count <= MAX_MATCHES,
    ensures
        without_nodes(table, ids, clip).len() == table.len(),
        ({
            let d = without_nodes(table, ids, clip)[i];
            let before = table[i].remote_matches.subrange(0, table[i].match_count as int);
            let after = d.remote_matches.subrange(0, d.match_count as int);
            &&& d.shaped()
            &&& d.match_count <= table[i].match_count
            &&& d == (NodeView {
                remote_matches: d.remote_matches,
                match_count: d.match_count,
                response_gen: d.response_gen,
                ..table[i]
            })
            &&& table[i].state == 2 ==> (after.contains(m) <==> before.contains(m)
                && !ids.contains(m.node_id))
            &&& table[i].state != 2 ==> d == table[i]
            &&& d.match_count == table[i].match_count ==> d == table[i]
        }),
    decreases ids.len(),
{
    if ids.len() > 0 {
        let init = ids.drop_last();
        law_nodes_are_dropped_exactly(table, init, clip, i, m);
        let prev = without_nodes(table, init, clip)[i];
        law_dropped_exactly(prev, seq![ids.last()], false, clip, m);
        assert(seq![ids.last()][0] == ids.last());
        assert(seq![ids.last()].contains(m.node_id) <==> m.node_id == ids.last());
        if init.contains(m.node_id) {
            let k = choose|k: int| 0 <= k < init.len() && init[k] == m.node_id;
            assert(ids[k] == m.node_id);
        }
        if m.node_id == ids.last() {
            assert(ids[ids.len() - 1] == m.node_id);
        } else if ids.contains(m.node_id) {
            let k = choose|k: int| 0 <= k < ids.len() && ids[k] == m.node_id;
            assert(init[k] == m.node_id);
        }
    }
}

/// The entries that stay keep their order: what stays of two lists one after the other
/// is what stays of the first and then what stays of the second.
pub proof fn law_kept_in_order(
    a: Seq<MatchEntry>,
    b: Seq<MatchEntry>,
    ids: Seq<u64>,
    listed: bool,
)
    ensures
        kept(a + b, ids, listed) == kept(a, ids, listed) + kept(b, ids, listed),
        forall|m: MatchEntry|
            kept(#[trigger] seq![m], ids, listed) == (if ids.contains(m.node_id) == listed {
                seq![m]
            } else {
                Seq::empty()
            }),
    decreases b.len(),
{
    assert forall|m: MatchEntry|
        kept(#[trigger] seq![m], ids, listed) == (if ids.contains(m.node_id) == listed {
            seq![m]
        } else {
            Seq::empty()
        }) by {
        assert(seq![m].drop_last() =~= Seq::empty());
        assert(kept(Seq::empty(), ids, listed) =~= Seq::empty());
        assert(kept(seq![m], ids, listed) =~= (if ids.contains(m.node_id) == listed {
            seq![m]
        } else {
            Seq::empty()
        }));
    }
    if b.len() == 0 {
        assert(a + b =~= a);
        assert(kept(a, ids, listed) + kept(b, ids, listed) =~= kept(a, ids, listed));
    } else {
        law_kept_in_order(a, b.drop_last(), ids, listed);
        assert((a + b).drop_last() =~= a + b.drop_last());
        assert(kept(a + b, ids, listed) =~= kept(a, ids, listed) + kept(b, ids, listed));
    }
}

/// The room that dropped matches leave in a slot's list is blank.
pub proof fn law_dropped_room_is_blank(
    e: NodeView,
    ids: Seq<u64>,
    listed: bool,
    clip: bool,
    j: int,
)
    requires
        e.shaped(),
        e.match_count <= MAX_MATCHES,
        drop_matches(e, ids, listed, clip).match_count <= j < e.match_count,
    ensures
        ({
            let m = drop_matches(e, ids, listed, clip).remote_matches[j];
            m.node_id == 0 && m.topic_hash == 0 && m.port == 0 && m.addr@ =~= seq![0, 0, 0, 0]
        }),
{
    lemma_kept_len(e.remote_matches.subrange(0, match_limit(e)), ids, listed);
}

} // verus!
