//! The keys of messages, which the processes of a host fetch once and share.
#[allow(unused_imports)]
use crate::qkd::keys;
use crate::qkd::keys::{
    validate_identifier, KeyView, QkdKeyMaterial, MAX_KEY_ID_LEN, MAX_SAE_ID_LEN,
};
#[allow(unused_imports)]
use crate::qkd::store;
use crate::qkd::store::{
    Label, MessageView, QkdKeyStore, QkdMessageEntry, StoreView, MAX_QKD_MESSAGE_KEYS,
    MESSAGE_ENTRY_EMPTY, MESSAGE_ENTRY_PENDING, MESSAGE_ENTRY_READY, MESSAGE_ENTRY_WRITING,
};
use vstd::prelude::*;
#[allow(unused_imports)]
use vstd::utf8::*;

verus! {

/// What a process that needs a message key is told.
pub enum QkdMessageKeyLookup {
    /// The key is here.
    Ready(QkdKeyMaterial),
    /// This process is the one to fetch the key.
    Claimed,
    /// Another process is fetching the key.
    Pending,
    /// Another process is writing an entry that stands in the way: look again later.
    Busy,
}

/// What a process that needs a message key is told.
#[verifier::ext_equal]
pub enum LookupView {
    Ready(KeyView),
    Claimed,
    Pending,
    Busy,
}

impl View for QkdMessageKeyLookup {
    type V = LookupView;

    open spec fn view(&self) -> LookupView {
        match self {
            QkdMessageKeyLookup::Ready(k) => LookupView::Ready(k@),
            QkdMessageKeyLookup::Claimed => LookupView::Claimed,
            QkdMessageKeyLookup::Pending => LookupView::Pending,
            QkdMessageKeyLookup::Busy => LookupView::Busy,
        }
    }
}

/// The FNV-1a hash of bytes.
pub open spec fn fnv(b: Seq<u8>) -> u64
    decreases b.len(),
{
    if b.len() == 0 {
        0xcbf2_9ce4_8422_2325u64
    } else {
        (fnv(b.drop_last()) ^ (b.last() as u64)).wrapping_mul(0x1000_0000_01b3u64)
    }
}

/// The bytes that name a message key: sender, zero, key.
pub open spec fn name_bytes(sender: Seq<char>, key_id: Seq<char>) -> Seq<u8> {
    encode_utf8(sender).push(0) + encode_utf8(key_id)
}

/// Feeds bytes to a hash.
fn hash_on(hash: u64, more: &[u8], Ghost(fed): Ghost<Seq<u8>>) -> (r: u64)
    requires
        hash == fnv(fed),
    ensures
        r == fnv(fed + more@),
{
    let mut h: u64 = hash;
    let mut i: usize = 0;
    proof {
        assert(fed + more@.subrange(0, 0) =~= fed);
    }
    while i < more.len()
        invariant
            i <= more@.len(),
            h == fnv(fed + more@.subrange(0, i as int)),
        decreases more.len() - i,
    {
        proof {
            let next = fed + more@.subrange(0, i + 1);
            assert(next.drop_last() =~= fed + more@.subrange(0, i as int));
            assert(next.last() == more@[i as int]);
        }
        h = (h ^ (more[i] as u64)).wrapping_mul(0x1000_0000_01b3);
        i += 1;
    }
    proof {
        assert(more@.subrange(0, i as int) =~= more@);
    }
    h
}

/// The hash of the name of a message key.
fn message_key_hash(sender_sae_id: &str, key_id: &str) -> (r: u64)
    ensures
        r == fnv(name_bytes(sender_sae_id@, key_id@)),
{
    let ghost sender = encode_utf8(sender_sae_id@);
    let h: u64 = hash_on(0xcbf2_9ce4_8422_2325u64, sender_sae_id.as_bytes(), Ghost(Seq::empty()));
    proof {
        assert(Seq::<u8>::empty() + sender =~= sender);
        assert(sender.push(0).drop_last() =~= sender);
        let x = h;
        assert(x ^ 0u64 == x) by (bit_vector);
    }
    let h: u64 = h.wrapping_mul(0x1000_0000_01b3);
    hash_on(h, key_id.as_bytes(), Ghost(sender.push(0)))
}

/// Where the search for a message key starts.
pub open spec fn start_of(sender: Seq<char>, key_id: Seq<char>) -> int {
    fnv(name_bytes(sender, key_id)) as int % MAX_QKD_MESSAGE_KEYS as int
}

/// The place that the search comes to after `o` steps.
pub open spec fn place(start: int, o: int) -> int {
    (start + o) % MAX_QKD_MESSAGE_KEYS as int
}

/// Whether an entry is about this key of this sender.
pub open spec fn names(m: MessageView, sender: Seq<char>, key_id: Seq<char>) -> bool {
    m.sender_sae_id.text() == Some(sender) && m.key_id.text() == Some(key_id)
}

/// What an entry is to who needs a key.
#[derive(Clone, Copy, PartialEq, Eq, Structural)]
pub enum Standing {
    /// A live process is fetching the key into it.
    Fetched,
    /// It holds the key.
    Held,
    /// It was claimed for the key by a process that is gone.
    Orphaned,
    /// It is empty, or is being written.
    Open,
    /// It is about another key.
    Foreign,
}

/// Whether the process that wrote an entry is gone.
pub open spec fn writer_gone(m: MessageView, alive: bool) -> bool {
    m.writer_pid == 0 || !alive
}

/// What an entry is to who needs a key. `alive` is whether the process that wrote it
/// is alive.
pub open spec fn standing(
    m: MessageView,
    alive: bool,
    sender: Seq<char>,
    key_id: Seq<char>,
) -> Standing {
    if m.state == MESSAGE_ENTRY_EMPTY || m.state == MESSAGE_ENTRY_WRITING {
        Standing::Open
    } else if m.state == MESSAGE_ENTRY_PENDING && names(m, sender, key_id) {
        if writer_gone(m, alive) {
            Standing::Orphaned
        } else {
            Standing::Fetched
        }
    } else if m.state == MESSAGE_ENTRY_READY && names(m, sender, key_id) {
        Standing::Held
    } else {
        Standing::Foreign
    }
}

/// The first entry of the search, from step `o` on, that stands so.
pub open spec fn first_standing(
    ms: Seq<MessageView>,
    alive: Seq<bool>,
    sender: Seq<char>,
    key_id: Seq<char>,
    c: Standing,
    o: int,
) -> Option<int>
    decreases MAX_QKD_MESSAGE_KEYS - o,
{
    if o < 0 || o >= MAX_QKD_MESSAGE_KEYS {
        None
    } else {
        let i = place(start_of(sender, key_id), o);
        if standing(ms[i], alive[i], sender, key_id) == c {
            Some(i)
        } else {
            first_standing(ms, alive, sender, key_id, c, o + 1)
        }
    }
}

/// The oldest entry that holds a key, among the first `k` of the search.
pub open spec fn oldest(ms: Seq<MessageView>, start: int, k: nat) -> Option<int>
    decreases k,
{
    if k == 0 {
        None
    } else {
        let i = place(start, k - 1);
        match oldest(ms, start, (k - 1) as nat) {
            None => if ms[i].state == MESSAGE_ENTRY_READY {
                Some(i)
            } else {
                None
            },
            Some(j) => if ms[i].state == MESSAGE_ENTRY_READY && ms[i].generation
                < ms[j].generation {
                Some(i)
            } else {
                Some(j)
            },
        }
    }
}

/// An entry that this process has claimed.
pub open spec fn claimed(pid: u32, generation: u64, sender: Seq<char>, key_id: Seq<char>) -> MessageView {
    MessageView {
        state: MESSAGE_ENTRY_PENDING,
        writer_pid: pid,
        generation,
        key: store::zeros(32),
        key_id: store::label_of(key_id, MAX_KEY_ID_LEN as nat),
        sender_sae_id: store::label_of(sender, MAX_SAE_ID_LEN as nat),
    }
}

/// The store with an entry claimed.
pub open spec fn with_claim(
    s: StoreView,
    i: int,
    pid: u32,
    sender: Seq<char>,
    key_id: Seq<char>,
) -> StoreView {
    StoreView {
        generation: store::next_generation(s.generation),
        messages: s.messages.update(
            i,
            claimed(pid, store::next_generation(s.generation), sender, key_id),
        ),
        ..s
    }
}

/// What is wrong with the name of a message key.
pub open spec fn name_fault(sender: Seq<char>, key_id: Seq<char>) -> Option<Seq<char>> {
    match keys::identifier_fault("QKD sender SAE ID"@, sender, MAX_SAE_ID_LEN as nat) {
        Some(e) => Some(e),
        None => keys::identifier_fault("QKD message key_ID"@, key_id, MAX_KEY_ID_LEN as nat),
    }
}

/// The outcome of a search: what the process is told and which entry it has claimed.
/// An entry that names the key decides before any other. Where none does, the first
/// that is empty or being written decides, and where there is no such entry, the
/// oldest that holds another key gives way.
pub open spec fn outcome(
    ms: Seq<MessageView>,
    alive: Seq<bool>,
    sender: Seq<char>,
    key_id: Seq<char>,
) -> Result<(LookupView, Option<int>), Seq<char>> {
    if first_standing(ms, alive, sender, key_id, Standing::Fetched, 0) is Some {
        Ok((LookupView::Pending, None))
    } else if let Some(i) = first_standing(ms, alive, sender, key_id, Standing::Held, 0) {
        Ok((LookupView::Ready(KeyView { key_id, key: ms[i].key }), None))
    } else if let Some(i) = first_standing(ms, alive, sender, key_id, Standing::Orphaned, 0) {
        Ok((LookupView::Claimed, Some(i)))
    } else if let Some(i) = first_standing(ms, alive, sender, key_id, Standing::Open, 0) {
        if ms[i].state == MESSAGE_ENTRY_WRITING && !writer_gone(ms[i], alive[i]) {
            Ok((LookupView::Busy, None))
        } else {
            Ok((LookupView::Claimed, Some(i)))
        }
    } else {
        match oldest(ms, start_of(sender, key_id), MAX_QKD_MESSAGE_KEYS as nat) {
            Some(i) => Ok((LookupView::Claimed, Some(i))),
            None => Err("QKD message key cache has no available entries"@),
        }
    }
}

proof fn lemma_oldest_bounds(ms: Seq<MessageView>, start: int, k: nat)
    ensures
        oldest(ms, start, k) matches Some(i) ==> 0 <= i < MAX_QKD_MESSAGE_KEYS && ms[i].state
            == MESSAGE_ENTRY_READY && exists|o: int| 0 <= o < k && i == #[trigger] place(start, o),
    decreases k,
{
    if k > 0 {
        lemma_oldest_bounds(ms, start, (k - 1) as nat);
        assert(place(start, k - 1) == (start + (k - 1)) % MAX_QKD_MESSAGE_KEYS as int);
    }
}

proof fn lemma_first_standing(
    ms: Seq<MessageView>,
    alive: Seq<bool>,
    sender: Seq<char>,
    key_id: Seq<char>,
    c: Standing,
    o: int,
)
    requires
        0 <= o,
    ensures
        match first_standing(ms, alive, sender, key_id, c, o) {
            Some(i) => 0 <= i < MAX_QKD_MESSAGE_KEYS && standing(ms[i], alive[i], sender, key_id)
                == c,
            None => forall|q: int|
                o <= q < MAX_QKD_MESSAGE_KEYS ==> ({
                    let i = #[trigger] place(start_of(sender, key_id), q);
                    standing(ms[i], alive[i], sender, key_id) != c
                }),
        },
    decreases MAX_QKD_MESSAGE_KEYS - o,
{
    if o < MAX_QKD_MESSAGE_KEYS {
        lemma_first_standing(ms, alive, sender, key_id, c, o + 1);
    }
}

/// Every entry is come to.
proof fn lemma_search_reaches(
    ms: Seq<MessageView>,
    alive: Seq<bool>,
    sender: Seq<char>,
    key_id: Seq<char>,
    i: int,
)
    requires
        0 <= i < MAX_QKD_MESSAGE_KEYS,
    ensures
        first_standing(
            ms,
            alive,
            sender,
            key_id,
            standing(ms[i], alive[i], sender, key_id),
            0,
        ) is Some,
{
    let start = start_of(sender, key_id);
    let c = standing(ms[i], alive[i], sender, key_id);
    let o = if start <= i {
        i - start
    } else {
        i - start + MAX_QKD_MESSAGE_KEYS
    };
    lemma_first_standing(ms, alive, sender, key_id, c, 0);
    assert(place(start, o) == i);
}

/// The first entry in a state that is about this key of this sender.
pub open spec fn first_named(
    ms: Seq<MessageView>,
    state: u8,
    sender: Seq<char>,
    key_id: Seq<char>,
) -> Option<int>
    decreases ms.len(),
{
    if ms.len() == 0 {
        None
    } else {
        match first_named(ms.drop_last(), state, sender, key_id) {
            Some(i) => Some(i),
            None => if ms.last().state == state && names(ms.last(), sender, key_id) {
                Some(ms.len() - 1)
            } else {
                None
            },
        }
    }
}

proof fn lemma_first_named_prefix(
    ms: Seq<MessageView>,
    state: u8,
    sender: Seq<char>,
    key_id: Seq<char>,
    n: int,
)
    requires
        0 <= n <= ms.len(),
        first_named(ms.subrange(0, n), state, sender, key_id) is Some,
    ensures
        first_named(ms, state, sender, key_id) == first_named(
            ms.subrange(0, n),
            state,
            sender,
            key_id,
        ),
    decreases ms.len(),
{
    if n < ms.len() {
        assert(ms.drop_last().subrange(0, n) =~= ms.subrange(0, n));
        lemma_first_named_prefix(ms.drop_last(), state, sender, key_id, n);
    } else {
        assert(ms.subrange(0, n) =~= ms);
    }
}

proof fn lemma_first_named_only(
    ms: Seq<MessageView>,
    state: u8,
    sender: Seq<char>,
    key_id: Seq<char>,
    p: int,
)
    requires
        0 <= p < ms.len(),
        ms[p].state == state,
        names(ms[p], sender, key_id),
        forall|k: int| 0 <= k < p ==> !names(#[trigger] ms[k], sender, key_id),
    ensures
        first_named(ms, state, sender, key_id) == Some(p),
    decreases ms.len(),
{
    let d = ms.drop_last();
    if p == ms.len() - 1 {
        assert forall|k: int| 0 <= k < d.len() implies !names(#[trigger] d[k], sender, key_id) by {
            assert(d[k] == ms[k]);
        }
        lemma_first_named_none(d, state, sender, key_id);
    } else {
        assert forall|k: int| 0 <= k < p implies !names(#[trigger] d[k], sender, key_id) by {
            assert(d[k] == ms[k]);
        }
        lemma_first_named_only(d, state, sender, key_id, p);
    }
}

proof fn lemma_first_named_none(
    ms: Seq<MessageView>,
    state: u8,
    sender: Seq<char>,
    key_id: Seq<char>,
)
    requires
        forall|k: int| 0 <= k < ms.len() ==> !names(#[trigger] ms[k], sender, key_id),
    ensures
        first_named(ms, state, sender, key_id) is None,
    decreases ms.len(),
{
    if ms.len() > 0 {
        let d = ms.drop_last();
        assert forall|k: int| 0 <= k < d.len() implies !names(#[trigger] d[k], sender, key_id) by {
            assert(d[k] == ms[k]);
        }
        lemma_first_named_none(d, state, sender, key_id);
        assert(!names(ms[ms.len() - 1], sender, key_id));
    }
}

/// Whether an entry is about this key of this sender.
fn message_entry_matches(entry: &QkdMessageEntry, sender_sae_id: &str, key_id: &str) -> (r: bool)
    ensures
        r == names(entry@, sender_sae_id@, key_id@),
{
    entry.sender_sae_id.holds(sender_sae_id) && entry.key_id.holds(key_id)
}

impl QkdKeyStore {
    /// Claims an entry for this process.
    fn initialize_message_entry(&mut self, i: usize, pid: u32, sender_sae_id: &str, key_id: &str)
        requires
            old(self).wf(),
            i < old(self).message_entries@.len(),
            keys::identifier_ok(sender_sae_id@, MAX_SAE_ID_LEN as nat),
            keys::identifier_ok(key_id@, MAX_KEY_ID_LEN as nat),
        ensures
            final(self).wf(),
            final(self)@ == with_claim(old(self)@, i as int, pid, sender_sae_id@, key_id@),
    {
        let generation: u64 = self.header.generation.wrapping_add(1);
        let mut key_label = Label::blank(MAX_KEY_ID_LEN);
        key_label.store(key_id);
        let mut sender_label = Label::blank(MAX_SAE_ID_LEN);
        sender_label.store(sender_sae_id);
        let entry = QkdMessageEntry {
            state: MESSAGE_ENTRY_PENDING,
            writer_pid: pid,
            generation,
            key: [0u8;32],
            key_id: key_label,
            sender_sae_id: sender_label,
        };
        proof {
            assert(entry.key@ =~= store::zeros(32));
        }
        let ghost new = entry@;
        self.header.generation = generation;
        self.message_entries.set(i, entry);
        proof {
            assert(self@.messages =~= old(self)@.messages.update(i as int, new));
            assert(self@.entries =~= old(self)@.entries);
        }
    }

    /// What an entry is to who needs a key.
    fn standing_of(&self, i: usize, alive: bool, sender_sae_id: &str, key_id: &str) -> (r: Standing)
        requires
            i < self.message_entries@.len(),
        ensures
            r == standing(self.message_entries@[i as int]@, alive, sender_sae_id@, key_id@),
    {
        let state: u8 = self.message_entries[i].state;
        if state == MESSAGE_ENTRY_EMPTY || state == MESSAGE_ENTRY_WRITING {
            return Standing::Open;
        }
        if (state == MESSAGE_ENTRY_PENDING || state == MESSAGE_ENTRY_READY)
            && message_entry_matches(&self.message_entries[i], sender_sae_id, key_id) {
            if state == MESSAGE_ENTRY_READY {
                Standing::Held
            } else if self.message_entries[i].writer_pid == 0 || !alive {
                Standing::Orphaned
            } else {
                Standing::Fetched
            }
        } else {
            Standing::Foreign
        }
    }

    /// Looks for a message key. A process that finds it neither held nor being
    /// fetched claims an entry and is the one to fetch it; the others wait for it. An
    /// entry that was claimed for the key by a process that is gone is taken over;
    /// where no entry names the key, it is the first free entry of the search, or else
    /// the oldest that holds another key. Different messages have different keys.
    /// `alive` says of each entry whether the process that wrote it is alive; `pid` is
    /// this process.
    pub fn claim_message_key(
        &mut self,
        sender_sae_id: &str,
        key_id: &str,
        pid: u32,
        alive: &[bool],
    ) -> (r: Result<QkdMessageKeyLookup, String>)
        requires
            old(self).wf(),
            alive@.len() == MAX_QKD_MESSAGE_KEYS,
        ensures
            final(self).wf(),
            match name_fault(sender_sae_id@, key_id@) {
                Some(m) => r matches Err(e) && e@ == m && final(self)@ == old(self)@,
                None => match outcome(old(self)@.messages, alive@, sender_sae_id@, key_id@) {
                    Ok((l, Some(i))) => (r matches Ok(v) && v@ == l) && final(self)@ == with_claim(
                        old(self)@,
                        i,
                        pid,
                        sender_sae_id@,
                        key_id@,
                    ),
                    Ok((l, None)) => (r matches Ok(v) && v@ == l) && final(self)@ == old(self)@,
                    Err(m) => (r matches Err(e) && e@ == m) && final(self)@ == old(self)@,
                },
            },
    {
        validate_identifier("QKD sender SAE ID", sender_sae_id, MAX_SAE_ID_LEN)?;
        validate_identifier("QKD message key_ID", key_id, MAX_KEY_ID_LEN)?;
        let ghost ms = self@.messages;
        let ghost from = start_of(sender_sae_id@, key_id@);
        let start: usize = (message_key_hash(sender_sae_id, key_id)
            % MAX_QKD_MESSAGE_KEYS as u64) as usize;
        let mut held: Option<usize> = None;
        let mut orphaned: Option<usize> = None;
        let mut open: Option<usize> = None;
        let mut oldest_ready: Option<(usize, u64)> = None;
        let mut offset: usize = 0;
        while offset < MAX_QKD_MESSAGE_KEYS
            invariant
                offset <= MAX_QKD_MESSAGE_KEYS,
                self.wf(),
                *self == *old(self),
                ms == self@.messages,
                start == from < MAX_QKD_MESSAGE_KEYS,
                from == start_of(sender_sae_id@, key_id@),
                alive@.len() == MAX_QKD_MESSAGE_KEYS,
                name_fault(sender_sae_id@, key_id@) is None,
                first_standing(ms, alive@, sender_sae_id@, key_id@, Standing::Fetched, 0)
                    == first_standing(
                    ms,
                    alive@,
                    sender_sae_id@,
                    key_id@,
                    Standing::Fetched,
                    offset as int,
                ),
                match held {
                    Some(i) => i < MAX_QKD_MESSAGE_KEYS && first_standing(
                        ms,
                        alive@,
                        sender_sae_id@,
                        key_id@,
                        Standing::Held,
                        0,
                    ) == Some(i as int),
                    None => first_standing(
                        ms,
                        alive@,
                        sender_sae_id@,
                        key_id@,
                        Standing::Held,
                        0,
                    ) == first_standing(
                        ms,
                        alive@,
                        sender_sae_id@,
                        key_id@,
                        Standing::Held,
                        offset as int,
                    ),
                },
                match orphaned {
                    Some(i) => i < MAX_QKD_MESSAGE_KEYS && first_standing(
                        ms,
                        alive@,
                        sender_sae_id@,
                        key_id@,
                        Standing::Orphaned,
                        0,
                    ) == Some(i as int),
                    None => first_standing(
                        ms,
                        alive@,
                        sender_sae_id@,
                        key_id@,
                        Standing::Orphaned,
                        0,
                    ) == first_standing(
                        ms,
                        alive@,
                        sender_sae_id@,
                        key_id@,
                        Standing::Orphaned,
                        offset as int,
                    ),
                },
                match open {
                    Some(i) => i < MAX_QKD_MESSAGE_KEYS && first_standing(
                        ms,
                        alive@,
                        sender_sae_id@,
                        key_id@,
                        Standing::Open,
                        0,
                    ) == Some(i as int),
                    None => first_standing(
                        ms,
                        alive@,
                        sender_sae_id@,
                        key_id@,
                        Standing::Open,
                        0,
                    ) == first_standing(
                        ms,
                        alive@,
                        sender_sae_id@,
                        key_id@,
                        Standing::Open,
                        offset as int,
                    ),
                },
                match oldest_ready {
                    Some((i, g)) => oldest(ms, from, offset as nat) == Some(i as int) && i
                        < MAX_QKD_MESSAGE_KEYS && g == ms[i as int].generation,
                    None => oldest(ms, from, offset as nat) is None,
                },
            decreases MAX_QKD_MESSAGE_KEYS - offset,
        {
            let index: usize = (start + offset) % MAX_QKD_MESSAGE_KEYS;
            proof {
                assert(index == place(from, offset as int));
                assert(ms[index as int] == self.message_entries@[index as int]@);
            }
            match self.standing_of(index, alive[index], sender_sae_id, key_id) {
                Standing::Fetched => return Ok(QkdMessageKeyLookup::Pending),
                Standing::Held => if held.is_none() {
                    held = Some(index);
                },
                Standing::Orphaned => if orphaned.is_none() {
                    orphaned = Some(index);
                },
                Standing::Open => if open.is_none() {
                    open = Some(index);
                },
                Standing::Foreign => {},
            }
            if self.message_entries[index].state == MESSAGE_ENTRY_READY {
                let generation: u64 = self.message_entries[index].generation;
                let older = match oldest_ready {
                    Some((_, o)) => generation < o,
                    None => true,
                };
                if older {
                    oldest_ready = Some((index, generation));
                }
            }
            offset += 1;
        }
        if let Some(index) = held {
            proof {
                assert(ms[index as int] == self.message_entries@[index as int]@);
            }
            return Ok(
                QkdMessageKeyLookup::Ready(
                    QkdKeyMaterial {
                        key_id: key_id.to_owned(),
                        key: self.message_entries[index].key,
                    },
                ),
            );
        }
        if let Some(index) = orphaned {
            self.initialize_message_entry(index, pid, sender_sae_id, key_id);
            return Ok(QkdMessageKeyLookup::Claimed);
        }
        if let Some(index) = open {
            proof {
                assert(ms[index as int] == self.message_entries@[index as int]@);
                lemma_first_standing(ms, alive@, sender_sae_id@, key_id@, Standing::Open, 0);
            }
            let gone = self.message_entries[index].writer_pid == 0 || !alive[index];
            if self.message_entries[index].state == MESSAGE_ENTRY_WRITING && !gone {
                return Ok(QkdMessageKeyLookup::Busy);
            }
            self.initialize_message_entry(index, pid, sender_sae_id, key_id);
            return Ok(QkdMessageKeyLookup::Claimed);
        }
        match oldest_ready {
            Some((index, _)) => {
                self.initialize_message_entry(index, pid, sender_sae_id, key_id);
                Ok(QkdMessageKeyLookup::Claimed)
            },
            None => Err("QKD message key cache has no available entries".to_owned()),
        }
    }

    /// The first entry in a state that is about this key of this sender.
    fn find_message_entry(&self, sender_sae_id: &str, key_id: &str, expected_state: u8) -> (r:
        Option<usize>)
        ensures
            match r {
                Some(i) => first_named(self@.messages, expected_state, sender_sae_id@, key_id@)
                    == Some(i as int) && i < self.message_entries@.len(),
                None => first_named(self@.messages, expected_state, sender_sae_id@, key_id@) is None,
            },
    {
        let ghost ms = self@.messages;
        let mut i: usize = 0;
        proof {
            assert(ms.subrange(0, 0) =~= Seq::empty());
        }
        while i < self.message_entries.len()
            invariant
                i <= self.message_entries@.len(),
                ms == self@.messages,
                first_named(
                    ms.subrange(0, i as int),
                    expected_state,
                    sender_sae_id@,
                    key_id@,
                ) is None,
            decreases self.message_entries.len() - i,
        {
            proof {
                assert(ms.subrange(0, i + 1).drop_last() =~= ms.subrange(0, i as int));
                assert(ms.subrange(0, i + 1).last() == self.message_entries@[i as int]@);
            }
            if self.message_entries[i].state == expected_state && message_entry_matches(
                &self.message_entries[i],
                sender_sae_id,
                key_id,
            ) {
                proof {
                    lemma_first_named_prefix(ms, expected_state, sender_sae_id@, key_id@, i + 1);
                }
                return Some(i);
            }
            i += 1;
        }
        proof {
            assert(ms.subrange(0, i as int) =~= ms);
        }
        None
    }

    /// Puts a fetched key into the entry that was claimed for it.
    pub fn publish_message_key(&mut self, sender_sae_id: &str, material: &QkdKeyMaterial) -> (r:
        Result<(), String>)
        requires
            old(self).wf(),
        ensures
            final(self).wf(),
            match first_named(
                old(self)@.messages,
                MESSAGE_ENTRY_PENDING,
                sender_sae_id@,
                material@.key_id,
            ) {
                Some(i) => r is Ok && final(self)@ == with_message(
                    old(self)@,
                    i,
                    MessageView {
                        state: MESSAGE_ENTRY_READY,
                        key: material@.key,
                        ..old(self)@.messages[i]
                    },
                ),
                None => (r matches Err(e) && e@ == "QKD message key cache claim was lost"@)
                    && final(self)@ == old(self)@,
            },
    {
        let ghost ms = self@.messages;
        match self.find_message_entry(
            sender_sae_id,
            material.key_id.as_str(),
            MESSAGE_ENTRY_PENDING,
        ) {
            Some(i) => {
                self.message_entries[i].key = material.key;
                self.message_entries[i].state = MESSAGE_ENTRY_READY;
                proof {
                    let new = MessageView {
                        state: MESSAGE_ENTRY_READY,
                        key: material@.key,
                        ..ms[i as int]
                    };
                    assert(self@.messages =~= ms.update(i as int, new));
                    assert(self@.entries =~= old(self)@.entries);
                }
                Ok(())
            },
            None => Err("QKD message key cache claim was lost".to_owned()),
        }
    }

    /// Gives up the entry that was claimed for a key.
    pub fn abandon_message_key(&mut self, sender_sae_id: &str, key_id: &str)
        requires
            old(self).wf(),
        ensures
            final(self).wf(),
            final(self)@ == (match first_named(
                old(self)@.messages,
                MESSAGE_ENTRY_PENDING,
                sender_sae_id@,
                key_id@,
            ) {
                Some(i) => with_message(old(self)@, i, store::blank_message()),
                None => old(self)@,
            }),
    {
        let ghost ms = self@.messages;
        if let Some(i) = self.find_message_entry(sender_sae_id, key_id, MESSAGE_ENTRY_PENDING) {
            let blank = store::fresh_message();
            self.message_entries.set(i, blank);
            proof {
                assert(self@.messages =~= ms.update(i as int, store::blank_message()));
                assert(self@.entries =~= old(self)@.entries);
            }
        }
    }
}

/// The store with one message key replaced.
pub open spec fn with_message(s: StoreView, i: int, m: MessageView) -> StoreView {
    StoreView { messages: s.messages.update(i, m), ..s }
}

proof fn lemma_claimed_names(pid: u32, generation: u64, sender: Seq<char>, key_id: Seq<char>)
    requires
        name_fault(sender, key_id) is None,
    ensures
        names(claimed(pid, generation, sender, key_id), sender, key_id),
{
    store::law_label_round_trip(sender, MAX_SAE_ID_LEN as nat);
    store::law_label_round_trip(key_id, MAX_KEY_ID_LEN as nat);
}

/// While a live process is fetching a key, every other process that asks for the key is
/// told so, whatever else is in the store.
pub proof fn law_one_process_fetches(
    s: StoreView,
    alive: Seq<bool>,
    sender: Seq<char>,
    key_id: Seq<char>,
    i: int,
)
    requires
        s.wf(),
        alive.len() == MAX_QKD_MESSAGE_KEYS,
        0 <= i < MAX_QKD_MESSAGE_KEYS,
        s.messages[i].state == MESSAGE_ENTRY_PENDING,
        names(s.messages[i], sender, key_id),
        !writer_gone(s.messages[i], alive[i]),
    ensures
        outcome(s.messages, alive, sender, key_id) == Ok::<(LookupView, Option<int>), Seq<char>>(
            (LookupView::Pending, None),
        ),
{
    lemma_search_reaches(s.messages, alive, sender, key_id, i);
}

/// Who is told to fetch a key has an entry for it: as long as that process is alive,
/// every other that asks for the key is told that it is being fetched.
pub proof fn law_claim_is_seen(
    s: StoreView,
    alive: Seq<bool>,
    later: Seq<bool>,
    sender: Seq<char>,
    key_id: Seq<char>,
    pid: u32,
    i: int,
)
    requires
        s.wf(),
        alive.len() == MAX_QKD_MESSAGE_KEYS,
        later.len() == MAX_QKD_MESSAGE_KEYS,
        pid != 0,
        name_fault(sender, key_id) is None,
        outcome(s.messages, alive, sender, key_id) == Ok::<(LookupView, Option<int>), Seq<char>>(
            (LookupView::Claimed, Some(i)),
        ),
        later[i],
    ensures
        0 <= i < MAX_QKD_MESSAGE_KEYS,
        outcome(with_claim(s, i, pid, sender, key_id).messages, later, sender, key_id) == Ok::<
            (LookupView, Option<int>),
            Seq<char>,
        >((LookupView::Pending, None)),
{
    lemma_claim_bounds(s.messages, alive, sender, key_id, i);
    lemma_claimed_names(pid, store::next_generation(s.generation), sender, key_id);
    lemma_search_reaches(
        with_claim(s, i, pid, sender, key_id).messages,
        later,
        sender,
        key_id,
        i,
    );
}

/// That a process gives up another key changes nothing for who waits for this one.
pub proof fn law_abandoning_another_key(
    s: StoreView,
    alive: Seq<bool>,
    sender: Seq<char>,
    key_id: Seq<char>,
    other_sender: Seq<char>,
    other_key: Seq<char>,
    i: int,
    j: int,
)
    requires
        s.wf(),
        alive.len() == MAX_QKD_MESSAGE_KEYS,
        0 <= i < MAX_QKD_MESSAGE_KEYS,
        s.messages[i].state == MESSAGE_ENTRY_PENDING,
        names(s.messages[i], sender, key_id),
        !writer_gone(s.messages[i], alive[i]),
        (other_sender, other_key) != (sender, key_id),
        first_named(s.messages, MESSAGE_ENTRY_PENDING, other_sender, other_key) == Some(j),
    ensures
        outcome(
            with_message(s, j, store::blank_message()).messages,
            alive,
            sender,
            key_id,
        ) == Ok::<(LookupView, Option<int>), Seq<char>>((LookupView::Pending, None)),
{
    lemma_first_named_found(s.messages, MESSAGE_ENTRY_PENDING, other_sender, other_key);
    assert(i != j);
    lemma_search_reaches(
        with_message(s, j, store::blank_message()).messages,
        alive,
        sender,
        key_id,
        i,
    );
}

proof fn lemma_first_named_found(
    ms: Seq<MessageView>,
    state: u8,
    sender: Seq<char>,
    key_id: Seq<char>,
)
    ensures
        first_named(ms, state, sender, key_id) matches Some(j) ==> 0 <= j < ms.len() && ms[j].state
            == state && names(ms[j], sender, key_id),
    decreases ms.len(),
{
    if ms.len() > 0 {
        lemma_first_named_found(ms.drop_last(), state, sender, key_id);
    }
}

proof fn lemma_claim_bounds(
    ms: Seq<MessageView>,
    alive: Seq<bool>,
    sender: Seq<char>,
    key_id: Seq<char>,
    i: int,
)
    requires
        outcome(ms, alive, sender, key_id) == Ok::<(LookupView, Option<int>), Seq<char>>(
            (LookupView::Claimed, Some(i)),
        ),
    ensures
        0 <= i < MAX_QKD_MESSAGE_KEYS,
{
    lemma_first_standing(ms, alive, sender, key_id, Standing::Orphaned, 0);
    lemma_first_standing(ms, alive, sender, key_id, Standing::Open, 0);
    lemma_oldest_bounds(ms, start_of(sender, key_id), MAX_QKD_MESSAGE_KEYS as nat);
}

/// A key that was published in the entry claimed for it is given to whoever asks for
/// it, as long as no other entry is about that key.
pub proof fn law_published_key_is_shared(
    s: StoreView,
    alive: Seq<bool>,
    later: Seq<bool>,
    sender: Seq<char>,
    m: KeyView,
    pid: u32,
    i: int,
)
    requires
        s.wf(),
        alive.len() == MAX_QKD_MESSAGE_KEYS,
        later.len() == MAX_QKD_MESSAGE_KEYS,
        name_fault(sender, m.key_id) is None,
        outcome(s.messages, alive, sender, m.key_id) == Ok::<(LookupView, Option<int>), Seq<char>>(
            (LookupView::Claimed, Some(i)),
        ),
        forall|k: int|
            0 <= k < s.messages.len() && k != i ==> !names(
                #[trigger] s.messages[k],
                sender,
                m.key_id,
            ),
    ensures
        ({
            let ms = with_claim(s, i, pid, sender, m.key_id).messages;
            let done = ms.update(
                i,
                MessageView { state: MESSAGE_ENTRY_READY, key: m.key, ..ms[i] },
            );
            &&& first_named(ms, MESSAGE_ENTRY_PENDING, sender, m.key_id) == Some(i)
            &&& outcome(done, later, sender, m.key_id) == Ok::<
                (LookupView, Option<int>),
                Seq<char>,
            >((LookupView::Ready(m), None))
        }),
{
    let key_id = m.key_id;
    let ms = s.messages;
    let held = with_claim(s, i, pid, sender, key_id).messages;
    let done = held.update(i, MessageView { state: MESSAGE_ENTRY_READY, key: m.key, ..held[i] });
    lemma_claim_bounds(ms, alive, sender, key_id, i);
    lemma_claimed_names(pid, store::next_generation(s.generation), sender, key_id);
    assert forall|k: int| 0 <= k < i implies !names(#[trigger] held[k], sender, key_id) by {
        assert(held[k] == ms[k]);
    }
    lemma_first_named_only(held, MESSAGE_ENTRY_PENDING, sender, key_id, i);
    assert forall|k: int| 0 <= k < done.len() && k != i implies !names(
        #[trigger] done[k],
        sender,
        key_id,
    ) by {
        assert(done[k] == ms[k]);
    }
    lemma_first_standing(done, later, sender, key_id, Standing::Fetched, 0);
    lemma_first_standing(done, later, sender, key_id, Standing::Held, 0);
    lemma_search_reaches(done, later, sender, key_id, i);
}

/// Whether an entry is about a key: one that is being fetched or is held.
pub open spec fn in_use(m: MessageView) -> bool {
    m.state == MESSAGE_ENTRY_PENDING || m.state == MESSAGE_ENTRY_READY
}

/// Whether two entries are about the same key of the same sender.
pub open spec fn same_name(a: MessageView, b: MessageView) -> bool {
    &&& a.sender_sae_id.text() is Some
    &&& a.key_id.text() is Some
    &&& a.sender_sae_id.text() == b.sender_sae_id.text()
    &&& a.key_id.text() == b.key_id.text()
}

/// Whether no two entries are about the same key.
pub open spec fn one_entry_each(ms: Seq<MessageView>) -> bool {
    forall|i: int, j: int|
        0 <= i < j < ms.len() && in_use(#[trigger] ms[i]) && in_use(#[trigger] ms[j]) ==> !same_name(
            ms[i],
            ms[j],
        )
}

/// A process never claims an entry for a key while another entry is about that key: as
/// long as every process claims, publishes and gives up keys so, no two entries are
/// about the same key.
pub proof fn law_one_entry_for_a_key(
    s: StoreView,
    alive: Seq<bool>,
    sender: Seq<char>,
    key_id: Seq<char>,
    pid: u32,
    key: Seq<u8>,
)
    requires
        s.wf(),
        alive.len() == MAX_QKD_MESSAGE_KEYS,
        name_fault(sender, key_id) is None,
        one_entry_each(s.messages),
    ensures
        outcome(s.messages, alive, sender, key_id) matches Ok((_, Some(i))) ==> one_entry_each(
            with_claim(s, i, pid, sender, key_id).messages,
        ),
        first_named(s.messages, MESSAGE_ENTRY_PENDING, sender, key_id) matches Some(i)
            ==> one_entry_each(
            with_message(
                s,
                i,
                MessageView { state: MESSAGE_ENTRY_READY, key, ..s.messages[i] },
            ).messages,
        ) && one_entry_each(with_message(s, i, store::blank_message()).messages),
{
    let ms = s.messages;
    lemma_first_named_found(ms, MESSAGE_ENTRY_PENDING, sender, key_id);
    if let Ok((l, Some(i))) = outcome(ms, alive, sender, key_id) {
        lemma_claim_bounds(ms, alive, sender, key_id, i);
        lemma_claimed_names(pid, store::next_generation(s.generation), sender, key_id);
        let after = with_claim(s, i, pid, sender, key_id).messages;
        assert forall|k: int| 0 <= k < ms.len() && k != i && in_use(#[trigger] ms[k]) implies !names(
            ms[k],
            sender,
            key_id,
        ) by {
            if names(ms[k], sender, key_id) {
                lemma_search_reaches(ms, alive, sender, key_id, k);
                lemma_first_standing(ms, alive, sender, key_id, Standing::Orphaned, 0);
                let c = standing(ms[k], alive[k], sender, key_id);
                assert(c == Standing::Orphaned);
                assert(names(ms[i], sender, key_id) && in_use(ms[i]));
                if i < k {
                    assert(same_name(ms[i], ms[k]));
                } else {
                    assert(same_name(ms[k], ms[i]));
                }
            }
        }
        assert forall|a: int, b: int|
            0 <= a < b < after.len() && in_use(#[trigger] after[a]) && in_use(
                #[trigger] after[b],
            ) implies !same_name(after[a], after[b]) by {
            if a == i {
                assert(after[b] == ms[b]);
                assert(!names(ms[b], sender, key_id));
            } else if b == i {
                assert(after[a] == ms[a]);
                assert(!names(ms[a], sender, key_id));
            } else {
                assert(after[a] == ms[a] && after[b] == ms[b]);
            }
        }
    }
}

/// Whether an entry tells this sender and this key.
pub open spec fn tells(m: MessageView, sender: Seq<char>, key_id: Seq<char>) -> bool {
    m.sender_sae_id.text() == Some(sender) && m.key_id.text() == Some(key_id)
}

/// Whether a live process is fetching this key into the entry.
pub open spec fn is_fetched(m: MessageView, alive: bool, sender: Seq<char>, key_id: Seq<char>) -> bool {
    m.state == 2 && tells(m, sender, key_id) && m.writer_pid != 0 && alive
}

/// Whether the entry was claimed for this key by a process that is gone.
pub open spec fn is_orphaned(m: MessageView, alive: bool, sender: Seq<char>, key_id: Seq<char>) -> bool {
    m.state == 2 && tells(m, sender, key_id) && (m.writer_pid == 0 || !alive)
}

/// Whether the entry holds this key.
pub open spec fn is_held(m: MessageView, sender: Seq<char>, key_id: Seq<char>) -> bool {
    m.state == 3 && tells(m, sender, key_id)
}

proof fn lemma_standing_is(m: MessageView, alive: bool, sender: Seq<char>, key_id: Seq<char>)
    ensures
        standing(m, alive, sender, key_id) == Standing::Fetched <==> is_fetched(
            m,
            alive,
            sender,
            key_id,
        ),
        standing(m, alive, sender, key_id) == Standing::Orphaned <==> is_orphaned(
            m,
            alive,
            sender,
            key_id,
        ),
        standing(m, alive, sender, key_id) == Standing::Held <==> is_held(m, sender, key_id),
        standing(m, alive, sender, key_id) == Standing::Open <==> m.state == 0 || m.state == 1,
{
}

/// Where a search finds an entry that stands so, none before it does; where it finds none
/// there is none.
proof fn lemma_search(
    ms: Seq<MessageView>,
    alive: Seq<bool>,
    sender: Seq<char>,
    key_id: Seq<char>,
    c: Standing,
)
    ensures
        match first_standing(ms, alive, sender, key_id, c, 0) {
            Some(i) => 0 <= i < 4096 && standing(ms[i], alive[i], sender, key_id) == c,
            None => forall|i: int|
                0 <= i < 4096 ==> standing(#[trigger] ms[i], alive[i], sender, key_id) != c,
        },
{
    lemma_first_standing(ms, alive, sender, key_id, c, 0);
    if first_standing(ms, alive, sender, key_id, c, 0) is None {
        assert forall|i: int| 0 <= i < 4096 implies standing(
            #[trigger] ms[i],
            alive[i],
            sender,
            key_id,
        ) != c by {
            if standing(ms[i], alive[i], sender, key_id) == c {
                lemma_search_reaches(ms, alive, sender, key_id, i);
            }
        }
    }
}

/// A process is told to wait exactly if a live process is fetching this very key of this
/// very sender into one of the entries.
pub proof fn law_key_is_awaited_exactly(
    ms: Seq<MessageView>,
    alive: Seq<bool>,
    sender: Seq<char>,
    key_id: Seq<char>,
)
    ensures
        outcome(ms, alive, sender, key_id) matches Ok((LookupView::Pending, _)) <==> exists|i: int|
            0 <= i < 4096 && is_fetched(#[trigger] ms[i], alive[i], sender, key_id),
{
    lemma_search(ms, alive, sender, key_id, Standing::Fetched);
    assert forall|i: int| 0 <= i < 4096 implies (standing(
        #[trigger] ms[i],
        alive[i],
        sender,
        key_id,
    ) == Standing::Fetched <==> is_fetched(ms[i], alive[i], sender, key_id)) by {
        lemma_standing_is(ms[i], alive[i], sender, key_id);
    }
    if let Some(i) = first_standing(ms, alive, sender, key_id, Standing::Fetched, 0) {
        assert(is_fetched(ms[i], alive[i], sender, key_id));
    }
}

/// A key is given exactly if an entry holds it and no live process is fetching it. It is
/// given under the name that was asked for, as an entry of that name holds it, and no
/// entry is claimed.
pub proof fn law_held_key_is_given_exactly(
    ms: Seq<MessageView>,
    alive: Seq<bool>,
    sender: Seq<char>,
    key_id: Seq<char>,
)
    ensures
        outcome(ms, alive, sender, key_id) matches Ok((LookupView::Ready(_), _)) <==> (exists|
            i: int,
        |
            0 <= i < 4096 && is_held(#[trigger] ms[i], sender, key_id)) && !(exists|i: int|
            0 <= i < 4096 && is_fetched(#[trigger] ms[i], alive[i], sender, key_id)),
        outcome(ms, alive, sender, key_id) matches Ok((LookupView::Ready(k), claim)) ==> claim
            is None && k.key_id == key_id && exists|i: int|
            0 <= i < 4096 && is_held(#[trigger] ms[i], sender, key_id) && ms[i].key == k.key,
{
    law_key_is_awaited_exactly(ms, alive, sender, key_id);
    lemma_search(ms, alive, sender, key_id, Standing::Held);
    assert forall|i: int| 0 <= i < 4096 implies (standing(
        #[trigger] ms[i],
        alive[i],
        sender,
        key_id,
    ) == Standing::Held <==> is_held(ms[i], sender, key_id)) by {
        lemma_standing_is(ms[i], alive[i], sender, key_id);
    }
    if let Some(i) = first_standing(ms, alive, sender, key_id, Standing::Held, 0) {
        assert(is_held(ms[i], sender, key_id));
    }
}

/// The oldest key among the first entries of a search has the least generation of those.
proof fn lemma_oldest_is_least(ms: Seq<MessageView>, start: int, k: nat)
    ensures
        match oldest(ms, start, k) {
            Some(j) => forall|o: int|
                0 <= o < k && ms[#[trigger] place(start, o)].state == 3 ==> ms[j].generation
                    <= ms[place(start, o)].generation,
            None => forall|o: int| 0 <= o < k ==> ms[#[trigger] place(start, o)].state != 3,
        },
    decreases k,
{
    if k > 0 {
        lemma_oldest_is_least(ms, start, (k - 1) as nat);
    }
}

proof fn lemma_every_place(sender: Seq<char>, key_id: Seq<char>, i: int) -> (o: int)
    requires
        0 <= i < 4096,
    ensures
        0 <= o < 4096,
        place(start_of(sender, key_id), o) == i,
{
    let start = start_of(sender, key_id);
    if start <= i {
        i - start
    } else {
        i - start + 4096
    }
}

/// The entry that a process claims is one that no live process uses for this key: one
/// claimed for it by a process that is gone; else, where no entry tells the key, an empty
/// one or one whose writer is gone; else, where there is no such entry either, the oldest
/// that holds another key.
pub proof fn law_claimed_entry(
    ms: Seq<MessageView>,
    alive: Seq<bool>,
    sender: Seq<char>,
    key_id: Seq<char>,
    i: int,
)
    requires
        outcome(ms, alive, sender, key_id) matches Ok((_, Some(c))) && c == i,
    ensures
        0 <= i < 4096,
        outcome(ms, alive, sender, key_id) == Ok::<_, Seq<char>>((LookupView::Claimed, Some(i))),
        forall|k: int|
            0 <= k < 4096 ==> !is_fetched(#[trigger] ms[k], alive[k], sender, key_id) && !is_held(
                ms[k],
                sender,
                key_id,
            ),
        !is_orphaned(ms[i], alive[i], sender, key_id) ==> forall|k: int|
            0 <= k < 4096 ==> !is_orphaned(#[trigger] ms[k], alive[k], sender, key_id),
        is_orphaned(ms[i], alive[i], sender, key_id) || ms[i].state == 0 || ms[i].state == 3 || (
        ms[i].state == 1 && (ms[i].writer_pid == 0 || !alive[i])),
        ms[i].state == 3 ==> forall|k: int|
            0 <= k < 4096 ==> (#[trigger] ms[k]).state != 0 && ms[k].state != 1 && (ms[k].state == 3
                ==> ms[i].generation <= ms[k].generation),
{
    law_key_is_awaited_exactly(ms, alive, sender, key_id);
    law_held_key_is_given_exactly(ms, alive, sender, key_id);
    lemma_search(ms, alive, sender, key_id, Standing::Fetched);
    lemma_search(ms, alive, sender, key_id, Standing::Held);
    lemma_search(ms, alive, sender, key_id, Standing::Orphaned);
    lemma_search(ms, alive, sender, key_id, Standing::Open);
    let start = start_of(sender, key_id);
    lemma_oldest_bounds(ms, start, 4096);
    lemma_oldest_is_least(ms, start, 4096);
    lemma_standing_is(ms[i], alive[i], sender, key_id);
    assert forall|k: int| 0 <= k < 4096 implies !is_fetched(
        #[trigger] ms[k],
        alive[k],
        sender,
        key_id,
    ) && !is_held(ms[k], sender, key_id) by {
        lemma_standing_is(ms[k], alive[k], sender, key_id);
    }
    if !is_orphaned(ms[i], alive[i], sender, key_id) {
        assert forall|k: int| 0 <= k < 4096 implies !is_orphaned(
            #[trigger] ms[k],
            alive[k],
            sender,
            key_id,
        ) by {
            lemma_standing_is(ms[k], alive[k], sender, key_id);
        }
    }
    if ms[i].state == 3 {
        assert forall|k: int| 0 <= k < 4096 implies (#[trigger] ms[k]).state != 0 && ms[k].state != 1
            && (ms[k].state == 3 ==> ms[i].generation <= ms[k].generation) by {
            lemma_standing_is(ms[k], alive[k], sender, key_id);
            let o = lemma_every_place(sender, key_id, k);
            assert(ms[place(start, o)] == ms[k]);
        }
    }
}

/// A process is refused exactly if every entry is taken by another key that is still being
/// fetched, or is in no state at all.
pub proof fn law_refused_for_want_of_room(
    ms: Seq<MessageView>,
    alive: Seq<bool>,
    sender: Seq<char>,
    key_id: Seq<char>,
)
    ensures
        outcome(ms, alive, sender, key_id) is Err <==> forall|i: int|
            0 <= i < 4096 ==> (#[trigger] ms[i]).state != 0 && ms[i].state != 1 && ms[i].state != 3
                && !(ms[i].state == 2 && tells(ms[i], sender, key_id)),
{
    lemma_search(ms, alive, sender, key_id, Standing::Fetched);
    lemma_search(ms, alive, sender, key_id, Standing::Held);
    lemma_search(ms, alive, sender, key_id, Standing::Orphaned);
    lemma_search(ms, alive, sender, key_id, Standing::Open);
    let start = start_of(sender, key_id);
    lemma_oldest_bounds(ms, start, 4096);
    lemma_oldest_is_least(ms, start, 4096);
    if outcome(ms, alive, sender, key_id) is Err {
        assert forall|i: int| 0 <= i < 4096 implies (#[trigger] ms[i]).state != 0 && ms[i].state
            != 1 && ms[i].state != 3 && !(ms[i].state == 2 && tells(ms[i], sender, key_id)) by {
            lemma_standing_is(ms[i], alive[i], sender, key_id);
            let o = lemma_every_place(sender, key_id, i);
            assert(ms[place(start, o)] == ms[i]);
        }
    } else {
        let i: int = if let Some(i) = first_standing(
            ms,
            alive,
            sender,
            key_id,
            Standing::Fetched,
            0,
        ) {
            i
        } else if let Some(i) = first_standing(ms, alive, sender, key_id, Standing::Held, 0) {
            i
        } else if let Some(i) = first_standing(ms, alive, sender, key_id, Standing::Orphaned, 0) {
            i
        } else if let Some(i) = first_standing(ms, alive, sender, key_id, Standing::Open, 0) {
            i
        } else {
            oldest(ms, start, 4096)->0
        };
        lemma_standing_is(ms[i], alive[i], sender, key_id);
        assert(0 <= i < 4096 && (ms[i].state == 0 || ms[i].state == 1 || ms[i].state == 3 || (
        ms[i].state == 2 && tells(ms[i], sender, key_id))));
    }
}

/// A process is told to look again only while no entry tells the key and a live process is
/// writing an entry.
pub proof fn law_busy_while_an_entry_is_written(
    ms: Seq<MessageView>,
    alive: Seq<bool>,
    sender: Seq<char>,
    key_id: Seq<char>,
)
    ensures
        outcome(ms, alive, sender, key_id) matches Ok((LookupView::Busy, claim)) ==> claim is None
            && (exists|i: int|
            0 <= i < 4096 && (#[trigger] ms[i]).state == 1 && ms[i].writer_pid != 0 && alive[i])
            && forall|i: int|
            0 <= i < 4096 && ((#[trigger] ms[i]).state == 2 || ms[i].state == 3) ==> !tells(
                ms[i],
                sender,
                key_id,
            ),
{
    lemma_search(ms, alive, sender, key_id, Standing::Fetched);
    lemma_search(ms, alive, sender, key_id, Standing::Held);
    lemma_search(ms, alive, sender, key_id, Standing::Orphaned);
    lemma_search(ms, alive, sender, key_id, Standing::Open);
    if outcome(ms, alive, sender, key_id) matches Ok((LookupView::Busy, _)) {
        let i = first_standing(ms, alive, sender, key_id, Standing::Open, 0)->0;
        assert(ms[i].state == 1 && ms[i].writer_pid != 0 && alive[i]);
        assert forall|i: int|
            0 <= i < 4096 && ((#[trigger] ms[i]).state == 2 || ms[i].state == 3) implies !tells(
            ms[i],
            sender,
            key_id,
        ) by {
            lemma_standing_is(ms[i], alive[i], sender, key_id);
        }
    }
}

proof fn lemma_search_order(
    ms: Seq<MessageView>,
    alive: Seq<bool>,
    sender: Seq<char>,
    key_id: Seq<char>,
    c: Standing,
    o: int,
    p: int,
)
    requires
        0 <= o <= p < 4096,
        ({
            let i = place(start_of(sender, key_id), p);
            standing(ms[i], alive[i], sender, key_id) == c
        }),
        forall|q: int|
            o <= q < p ==> ({
                let i = #[trigger] place(start_of(sender, key_id), q);
                standing(ms[i], alive[i], sender, key_id) != c
            }),
    ensures
        first_standing(ms, alive, sender, key_id, c, o) == Some(place(start_of(sender, key_id), p)),
    decreases p - o,
{
    let i = place(start_of(sender, key_id), o);
    if o < p {
        assert(standing(ms[i], alive[i], sender, key_id) != c);
        lemma_search_order(ms, alive, sender, key_id, c, o + 1, p);
    }
}

/// Where an unused entry is claimed it is the first of the search: of the places from the
/// one that the hash of the name gives on, going up and starting over behind the last of
/// the 4096, the first that is empty or being written.
pub proof fn law_first_free_entry_is_claimed(
    ms: Seq<MessageView>,
    alive: Seq<bool>,
    sender: Seq<char>,
    key_id: Seq<char>,
    i: int,
    p: int,
)
    requires
        outcome(ms, alive, sender, key_id) matches Ok((_, Some(c))) && c == i,
        ms[i].state == 0 || ms[i].state == 1,
        0 <= p < 4096,
        ms[place(start_of(sender, key_id), p)].state == 0 || ms[place(
            start_of(sender, key_id),
            p,
        )].state == 1,
        forall|q: int|
            0 <= q < p ==> ms[#[trigger] place(start_of(sender, key_id), q)].state != 0 && ms[place(
                start_of(sender, key_id),
                q,
            )].state != 1,
    ensures
        i == (fnv(name_bytes(sender, key_id)) + p) % 4096,
{
    let start = start_of(sender, key_id);
    lemma_search(ms, alive, sender, key_id, Standing::Orphaned);
    lemma_search(ms, alive, sender, key_id, Standing::Open);
    lemma_oldest_bounds(ms, start, 4096);
    lemma_standing_is(ms[i], alive[i], sender, key_id);
    assert forall|q: int| 0 <= q < p implies ({
        let k = #[trigger] place(start, q);
        standing(ms[k], alive[k], sender, key_id) != Standing::Open
    }) by {
        lemma_standing_is(ms[place(start, q)], alive[place(start, q)], sender, key_id);
    }
    lemma_standing_is(ms[place(start, p)], alive[place(start, p)], sender, key_id);
    lemma_search_order(ms, alive, sender, key_id, Standing::Open, 0, p);
    assert(first_standing(ms, alive, sender, key_id, Standing::Open, 0) == Some(i));
}

/// The hash of a name starts from a fixed number, and each further byte is folded into it
/// before it is multiplied by another, in 64 bits.
pub proof fn law_hash_grows_byte_by_byte(b: Seq<u8>, x: u8)
    ensures
        b.len() == 0 ==> fnv(b) == 14695981039346656037,
        fnv(b.push(x)) as int == ((fnv(b) ^ (x as u64)) * 17592186044851)
            % 0x1_0000_0000_0000_0000,
{
    assert(b.push(x).drop_last() =~= b);
    let h = fnv(b) ^ (x as u64);
    assert(fnv(b.push(x)) == h.wrapping_mul(0x1000_0000_01b3u64));
}

/// Different message keys have different names: where no identifier holds a zero, sender
/// and key can be told from the bytes that are hashed.
pub proof fn law_names_tell_sender_and_key(
    sender: Seq<char>,
    key_id: Seq<char>,
    other_sender: Seq<char>,
    other_key: Seq<char>,
)
    requires
        name_fault(sender, key_id) is None,
        name_fault(other_sender, other_key) is None,
        name_bytes(sender, key_id) == name_bytes(other_sender, other_key),
    ensures
        sender == other_sender,
        key_id == other_key,
{
    broadcast use encode_utf8_decode_utf8;

    let a = encode_utf8(sender);
    let b = encode_utf8(other_sender);
    let n = name_bytes(sender, key_id);
    let m = name_bytes(other_sender, other_key);
    keys::law_identifier_is_accepted_exactly("QKD sender SAE ID"@, sender, 128);
    keys::law_identifier_is_accepted_exactly("QKD sender SAE ID"@, other_sender, 128);
    assert(n[a.len() as int] == 0 && m[b.len() as int] == 0);
    if a.len() < b.len() {
        assert(m[a.len() as int] == b[a.len() as int]);
    }
    if b.len() < a.len() {
        assert(n[b.len() as int] == a[b.len() as int]);
    }
    assert(n.subrange(0, a.len() as int) =~= a);
    assert(m.subrange(0, b.len() as int) =~= b);
    assert(n.subrange(a.len() as int + 1, n.len() as int) =~= encode_utf8(key_id));
    assert(m.subrange(b.len() as int + 1, m.len() as int) =~= encode_utf8(other_key));
    assert(decode_utf8(a) == sender && decode_utf8(b) == other_sender);
    assert(decode_utf8(encode_utf8(key_id)) == key_id);
    assert(decode_utf8(encode_utf8(other_key)) == other_key);
}

/// A claimed entry waits for its key: it tells the sender and the key, who claimed it and
/// when, and holds nothing but zeros. Nothing else in the store changes but the
/// generation, which counts up.
pub proof fn law_claim_is_noted(
    s: StoreView,
    i: int,
    pid: u32,
    sender: Seq<char>,
    key_id: Seq<char>,
)
    requires
        s.wf(),
        0 <= i < 4096,
        name_fault(sender, key_id) is None,
    ensures
        ({
            let t = with_claim(s, i, pid, sender, key_id);
            &&& t.generation as int == (s.generation + 1) % 0x1_0000_0000_0000_0000
            &&& t.messages.len() == s.messages.len()
            &&& t.messages[i].state == 2
            &&& t.messages[i].writer_pid == pid
            &&& t.messages[i].generation == t.generation
            &&& tells(t.messages[i], sender, key_id)
            &&& t.messages[i].key.len() == 32
            &&& forall|j: int| 0 <= j < 32 ==> (#[trigger] t.messages[i].key[j]) == 0
            &&& forall|k: int|
                0 <= k < s.messages.len() && k != i ==> (#[trigger] t.messages[k]) == s.messages[k]
            &&& t.entries == s.entries
            &&& t.magic == s.magic
            &&& t.daemon_pid == s.daemon_pid
            &&& t.local_sae_id == s.local_sae_id
        }),
{
    lemma_claimed_names(pid, store::next_generation(s.generation), sender, key_id);
}

/// The entry that a fetched key is put into, or that is given up, is the first that is in
/// that state and tells this very sender and key. There is none exactly if no entry is
/// such a one.
pub proof fn law_named_entry_exactly(
    ms: Seq<MessageView>,
    state: u8,
    sender: Seq<char>,
    key_id: Seq<char>,
)
    ensures
        match first_named(ms, state, sender, key_id) {
            Some(i) => 0 <= i < ms.len() && ms[i].state == state && tells(ms[i], sender, key_id)
                && forall|k: int|
                0 <= k < i && (#[trigger] ms[k]).state == state ==> !tells(ms[k], sender, key_id),
            None => forall|k: int|
                0 <= k < ms.len() && (#[trigger] ms[k]).state == state ==> !tells(
                    ms[k],
                    sender,
                    key_id,
                ),
        },
    decreases ms.len(),
{
    if ms.len() > 0 {
        let d = ms.drop_last();
        law_named_entry_exactly(d, state, sender, key_id);
        assert forall|k: int| 0 <= k < d.len() implies #[trigger] ms[k] == d[k] by {}
    }
}

/// A message key is looked for exactly if the sender's identifier has one to 127 bytes and
/// the key's one to 191, all of them printable or beyond ASCII.
pub proof fn law_message_key_is_named_exactly(sender: Seq<char>, key_id: Seq<char>)
    ensures
        name_fault(sender, key_id) is None <==> keys::identifier_ok(sender, 128)
            && keys::identifier_ok(key_id, 192),
{
    keys::law_identifier_is_accepted_exactly("QKD sender SAE ID"@, sender, 128);
    keys::law_identifier_is_accepted_exactly("QKD message key_ID"@, key_id, 192);
}

/// Of keys that are equally old the first of the search gives way: an entry that holds a
/// key of a lesser generation than every one before it in the search, and of no greater
/// generation than those behind it, is the oldest.
pub proof fn law_first_of_the_oldest(ms: Seq<MessageView>, start: int, k: nat, p: int)
    requires
        0 <= p < k,
        ms[place(start, p)].state == 3,
        forall|q: int|
            0 <= q < p && ms[#[trigger] place(start, q)].state == 3 ==> ms[place(start, q)].generation
                > ms[place(start, p)].generation,
        forall|q: int|
            p < q < k && ms[#[trigger] place(start, q)].state == 3 ==> ms[place(start, q)].generation
                >= ms[place(start, p)].generation,
    ensures
        oldest(ms, start, k) == Some(place(start, p)),
    decreases k,
{
    if p == k - 1 {
        lemma_oldest_bounds(ms, start, (k - 1) as nat);
        if let Some(j) = oldest(ms, start, (k - 1) as nat) {
            let o = choose|o: int| 0 <= o < k - 1 && j == #[trigger] place(start, o);
            assert(ms[place(start, o)].generation > ms[place(start, p)].generation);
        }
    } else {
        law_first_of_the_oldest(ms, start, (k - 1) as nat, p);
        let l = place(start, k - 1);
        assert(ms[l].state == 3 ==> ms[l].generation >= ms[place(start, p)].generation);
    }
}

} // verus!
