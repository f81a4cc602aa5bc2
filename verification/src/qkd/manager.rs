//! How a daemon gets, keeps and gives up the keys of its sessions. Fetching a key is
//! left to the caller, who hands over what came of it.
use crate::qkd::keys::{KeyView, QkdKeyMaterial};
#[allow(unused_imports)]
use crate::qkd::store;
use crate::qkd::store::{
    EntryView, QkdKeyStore, QkdSessionKey, QueryView, SessionKeyView, StoreView, ENTRY_ACTIVE,
};
use crate::text::text_equal;
use vstd::prelude::*;

verus! {

/// The keys of a daemon's sessions.
pub struct QkdDaemonManager {
    pub store: QkdKeyStore,
    pub local_sae_id: String,
}

/// The session with a daemon, pending or active.
pub open spec fn session_with(s: StoreView, id: u64) -> Option<SessionKeyView> {
    store::found(
        QueryView::Daemon { id, require_active: false },
        store::local_text(s),
        s.entries,
    )
}

/// The session with a daemon, if it is with this entity.
pub open spec fn session_with_entity(s: StoreView, id: u64, sae: Seq<char>) -> Option<
    SessionKeyView,
> {
    match session_with(s, id) {
        Some(k) => if k.remote_sae_id == sae {
            Some(k)
        } else {
            None
        },
        None => None,
    }
}

/// The store with a daemon's pending key made the active one.
pub open spec fn activated(s: StoreView, id: u64, key_id: Seq<char>) -> StoreView {
    match store::key_of(s.entries, id, key_id) {
        None => s,
        Some(i) => if s.entries[i].state == ENTRY_ACTIVE {
            s
        } else {
            StoreView {
                generation: store::next_generation(s.generation),
                entries: s.entries.update(
                    i,
                    EntryView { state: ENTRY_ACTIVE, ..s.entries[i] },
                ),
                ..s
            }
        },
    }
}

/// Whether a peer's key can be accepted without fetching it: it is the key of the
/// session with that peer, and is active or can be made so.
pub open spec fn known_inbound(s: StoreView, id: u64, sae: Seq<char>, key_id: Seq<char>) -> bool {
    match session_with_entity(s, id, sae) {
        Some(k) => k.key_id == key_id && (k.active || store::key_of(s.entries, id, key_id)
            is Some),
        None => false,
    }
}

/// The store once the other end accepted a key, and the daemon there, where the key
/// is known.
pub open spec fn acknowledged(s: StoreView, key_id: Seq<char>) -> (StoreView, Option<u64>) {
    match store::found(
        QueryView::Key { key_id, require_active: false, remote_sae_id: None },
        store::local_text(s),
        s.entries,
    ) {
        None => (s, None),
        Some(k) => if k.active {
            (s, Some(k.remote_daemon_id))
        } else {
            (
                activated(s, k.remote_daemon_id, key_id),
                if store::key_of(s.entries, k.remote_daemon_id, key_id) is Some {
                    Some(k.remote_daemon_id)
                } else {
                    None
                },
            )
        },
    }
}

impl QkdDaemonManager {
    /// Whether the store has its shape.
    pub open spec fn wf(self) -> bool {
        self.store.wf()
    }

    /// A manager of the keys in a store.
    pub fn new(store: QkdKeyStore, local_sae_id: String) -> (r: QkdDaemonManager)
        ensures
            r.store == store,
            r.local_sae_id == local_sae_id,
    {
        QkdDaemonManager { store, local_sae_id }
    }

    /// The identifier of the local entity.
    pub fn local_sae_id(&self) -> (r: &str)
        ensures
            r@ == self.local_sae_id@,
    {
        self.local_sae_id.as_str()
    }

    /// The key for a session that this daemon opens, where there is one already; else
    /// one has to be fetched and handed to `install_outbound`.
    pub fn prepare_outbound(&self, remote_daemon_id: u64, remote_sae_id: &str) -> (r: Option<
        QkdSessionKey,
    >)
        requires
            self.wf(),
        ensures
            store::session_result(r) == session_with_entity(
                self.store@,
                remote_daemon_id,
                remote_sae_id@,
            ),
    {
        match self.store.find_for_daemon(remote_daemon_id, false) {
            Some(existing) => if text_equal(existing.remote_sae_id.as_str(), remote_sae_id) {
                Some(existing)
            } else {
                None
            },
            None => None,
        }
    }

    /// Takes up a key that was fetched for a session that this daemon opens. It stays
    /// pending until the peer has shown that it has the key.
    pub fn install_outbound(
        &mut self,
        remote_daemon_id: u64,
        remote_sae_id: &str,
        fetched: Result<QkdKeyMaterial, String>,
    ) -> (r: Result<QkdSessionKey, String>)
        requires
            old(self).wf(),
        ensures
            final(self).wf(),
            final(self).local_sae_id == old(self).local_sae_id,
            match fetched {
                Err(m) => r == Err::<QkdSessionKey, _>(m) && final(self).store@ == old(
                    self,
                ).store@,
                Ok(k) => match store::put_fault(remote_sae_id@, k@.key_id) {
                    Some(m) => (r matches Err(e) && e@ == m) && final(self).store@ == old(
                        self,
                    ).store@,
                    None => {
                        &&& final(self).store@ == store::with_key(
                            old(self).store@,
                            remote_daemon_id,
                            remote_sae_id@,
                            k@,
                            false,
                        )
                        &&& match session_with(final(self).store@, remote_daemon_id) {
                            Some(v) => r matches Ok(s) && s@ == v,
                            None => r matches Err(e) && e@
                                == "QKD key disappeared after storing it"@,
                        }
                    },
                },
            },
    {
        let material = match fetched {
            Ok(k) => k,
            Err(m) => {
                return Err(m);
            },
        };
        self.store.put(remote_daemon_id, remote_sae_id, &material, false)?;
        match self.store.find_for_daemon(remote_daemon_id, false) {
            Some(k) => Ok(k),
            None => Err("QKD key disappeared after storing it".to_owned()),
        }
    }

    /// Makes a daemon's pending key the active one. Whether it has that key.
    pub fn activate_outbound(&mut self, remote_daemon_id: u64, key_id: &str) -> (r: bool)
        requires
            old(self).wf(),
        ensures
            final(self).wf(),
            final(self).local_sae_id == old(self).local_sae_id,
            r == store::key_of(old(self).store@.entries, remote_daemon_id, key_id@) is Some,
            final(self).store@ == activated(old(self).store@, remote_daemon_id, key_id@),
    {
        self.store.activate(remote_daemon_id, key_id)
    }

    /// Makes a key the active one of its session. The daemon at the other end, where
    /// the key is known.
    pub fn activate_outbound_by_key_id(&mut self, key_id: &str) -> (r: Option<u64>)
        requires
            old(self).wf(),
        ensures
            final(self).wf(),
            final(self).local_sae_id == old(self).local_sae_id,
            (final(self).store@, r) == acknowledged(old(self).store@, key_id@),
    {
        let session = self.store.find_by_key_id_for_tls(key_id)?;
        let id: u64 = session.remote_daemon_id;
        if session.active || self.activate_outbound(id, key_id) {
            Some(id)
        } else {
            None
        }
    }

    /// Whether there is an active key for the session with a daemon.
    pub fn has_active_session(&self, remote_daemon_id: u64) -> (r: bool)
        requires
            self.wf(),
        ensures
            r == store::found(
                QueryView::Daemon { id: remote_daemon_id, require_active: true },
                store::local_text(self.store@),
                self.store@.entries,
            ) is Some,
    {
        self.store.find_for_daemon(remote_daemon_id, true).is_some()
    }

    /// Accepts the key that a peer has taken, where it is known; else it has to be
    /// fetched and handed to `install_inbound`.
    pub fn accept_inbound(&mut self, remote_daemon_id: u64, remote_sae_id: &str, key_id: &str) -> (r:
        bool)
        requires
            old(self).wf(),
        ensures
            final(self).wf(),
            final(self).local_sae_id == old(self).local_sae_id,
            r == known_inbound(old(self).store@, remote_daemon_id, remote_sae_id@, key_id@),
            final(self).store@ == (if r && !session_with(
                old(self).store@,
                remote_daemon_id,
            )->0.active {
                activated(old(self).store@, remote_daemon_id, key_id@)
            } else {
                old(self).store@
            }),
    {
        match self.store.find_for_daemon(remote_daemon_id, false) {
            Some(existing) => {
                if text_equal(existing.remote_sae_id.as_str(), remote_sae_id) && text_equal(
                    existing.key_id.as_str(),
                    key_id,
                ) {
                    existing.active || self.store.activate(remote_daemon_id, key_id)
                } else {
                    false
                }
            },
            None => false,
        }
    }

    /// Takes up a key that was fetched because a peer has taken it. It is active at
    /// once.
    pub fn install_inbound(
        &mut self,
        remote_daemon_id: u64,
        remote_sae_id: &str,
        fetched: Result<QkdKeyMaterial, String>,
    ) -> (r: Result<(), String>)
        requires
            old(self).wf(),
        ensures
            final(self).wf(),
            final(self).local_sae_id == old(self).local_sae_id,
            match fetched {
                Err(m) => r == Err::<(), _>(m) && final(self).store@ == old(self).store@,
                Ok(k) => match store::put_fault(remote_sae_id@, k@.key_id) {
                    Some(m) => (r matches Err(e) && e@ == m) && final(self).store@ == old(
                        self,
                    ).store@,
                    None => r is Ok && final(self).store@ == store::with_key(
                        old(self).store@,
                        remote_daemon_id,
                        remote_sae_id@,
                        k@,
                        true,
                    ),
                },
            },
    {
        let material = match fetched {
            Ok(k) => k,
            Err(m) => {
                return Err(m);
            },
        };
        self.store.put(remote_daemon_id, remote_sae_id, &material, true)
    }

    /// Gives up the session with a daemon.
    pub fn remove_session(&mut self, remote_daemon_id: u64)
        requires
            old(self).wf(),
        ensures
            final(self).wf(),
            final(self).local_sae_id == old(self).local_sae_id,
            final(self).store@.entries == store::without_daemon(
                old(self).store@.entries,
                remote_daemon_id,
            ),
            final(self).store@ == (StoreView {
                generation: store::stepped(
                    old(self).store@.generation,
                    old(self).store@.entries,
                    remote_daemon_id,
                ),
                entries: final(self).store@.entries,
                ..old(self).store@
            }),
    {
        self.store.remove(remote_daemon_id);
    }

    /// Gives up all sessions.
    pub fn clear_sessions(&mut self)
        requires
            old(self).wf(),
        ensures
            final(self).wf(),
            final(self).local_sae_id == old(self).local_sae_id,
            final(self).store@ == (StoreView {
                daemon_pid: 0,
                generation: store::next_generation(old(self).store@.generation),
                entries: Seq::new(store::MAX_QKD_SESSIONS as nat, |i: int| store::blank_entry()),
                messages: Seq::new(
                    store::MAX_QKD_MESSAGE_KEYS as nat,
                    |i: int| store::blank_message(),
                ),
                ..old(self).store@
            }),
    {
        self.store.clear();
    }
}

/// A daemon fetches one key for a session: once it has taken one up, the next request
/// for that session gets the same key.
pub proof fn law_one_key_per_session(s: StoreView, id: u64, sae: Seq<char>, m: KeyView)
    requires
        s.wf(),
        store::one_each(s.entries),
        store::local_text(s) is Some,
        store::put_fault(sae, m.key_id) is None,
    ensures
        session_with_entity(store::with_key(s, id, sae, m, false), id, sae) matches Some(k)
            && k.key_id == m.key_id && k.key == m.key && !k.active,
{
    store::law_stored_key_is_found(s, id, sae, m, false, false);
}

/// The side that opens a session and the side that accepts it end up with the same
/// active key, once both have taken up the key of one identifier and the opening side
/// was told that it was accepted.
pub proof fn law_both_sides_share_the_key(
    opener: StoreView,
    accepter: StoreView,
    opener_id: u64,
    accepter_id: u64,
    opener_sae: Seq<char>,
    accepter_sae: Seq<char>,
    m: KeyView,
)
    requires
        opener.wf(),
        accepter.wf(),
        store::one_each(opener.entries),
        store::one_each(accepter.entries),
        store::local_text(opener) is Some,
        store::local_text(accepter) is Some,
        store::put_fault(accepter_sae, m.key_id) is None,
        store::put_fault(opener_sae, m.key_id) is None,
    ensures
        ({
            let opened = store::with_key(opener, accepter_id, accepter_sae, m, false);
            let ready = activated(opened, accepter_id, m.key_id);
            let accepted = store::with_key(accepter, opener_id, opener_sae, m, true);
            let q = |id: u64| QueryView::Daemon { id, require_active: true };
            &&& store::found(q(accepter_id), store::local_text(ready), ready.entries) matches Some(
                a,
            ) && a.key_id == m.key_id && a.key == m.key
            &&& store::found(
                q(opener_id),
                store::local_text(accepted),
                accepted.entries,
            ) matches Some(b) && b.key_id == m.key_id && b.key == m.key
        }),
{
    let opened = store::with_key(opener, accepter_id, accepter_sae, m, false);
    store::law_stored_key_is_found(accepter, opener_id, opener_sae, m, true, true);
    store::law_put_keeps_one_each(opener, accepter_id, accepter_sae, m, false);
    store::lemma_stored_key_of(opener, accepter_id, accepter_sae, m);
    let i = store::place_for(opener.entries, accepter_id);
    store::law_label_round_trip(accepter_sae, crate::qkd::keys::MAX_SAE_ID_LEN as nat);
    store::law_activated_key_is_found(opened, accepter_id, m.key_id, i);
}

/// The session that is given for a daemon is with that daemon and that entity, and shows
/// what the store holds for them. Where the store holds a session with another entity
/// first, none is given.
pub proof fn law_session_is_with_the_right_peer(s: StoreView, id: u64, sae: Seq<char>)
    ensures
        session_with(s, id) matches Some(k) ==> k.remote_daemon_id == id,
        session_with_entity(s, id, sae) matches Some(k) ==> k.remote_daemon_id == id
            && k.remote_sae_id == sae && session_with(s, id) == Some(k),
        session_with_entity(s, id, sae) is None <==> session_with(s, id) is None || session_with(
            s,
            id,
        )->0.remote_sae_id != sae,
{
    store::law_session_of_a_daemon_exactly(store::local_text(s), s.entries, id, false);
}

/// Making a key active changes the state of one entry, which is that daemon's and holds
/// that key, and nothing else but the generation, which then counts up. Where there is no
/// such entry, or it is active already, nothing changes.
pub proof fn law_activation_changes_one_entry(s: StoreView, id: u64, key_id: Seq<char>)
    ensures
        ({
            let t = activated(s, id, key_id);
            &&& t.messages == s.messages
            &&& t.magic == s.magic
            &&& t.daemon_pid == s.daemon_pid
            &&& t.local_sae_id == s.local_sae_id
            &&& t.entries.len() == s.entries.len()
            &&& forall|k: int|
                #![trigger t.entries[k]]
                0 <= k < s.entries.len() ==> t.entries[k].key == s.entries[k].key
                    && t.entries[k].key_id == s.entries[k].key_id && t.entries[k].remote_sae_id
                    == s.entries[k].remote_sae_id && t.entries[k].remote_daemon_id
                    == s.entries[k].remote_daemon_id && (t.entries[k].state != s.entries[k].state
                    ==> t.entries[k].state == 2 && s.entries[k].state == 1
                    && s.entries[k].remote_daemon_id == id && s.entries[k].key_id.text() == Some(
                    key_id,
                ))
            &&& t.entries != s.entries ==> t.generation as int == (s.generation + 1)
                % 0x1_0000_0000_0000_0000
            &&& t.entries == s.entries ==> t.generation == s.generation
            &&& (exists|k: int|
                0 <= k < s.entries.len() && ((#[trigger] s.entries[k]).state == 1
                    || s.entries[k].state == 2) && s.entries[k].remote_daemon_id == id
                    && s.entries[k].key_id.text() == Some(key_id)) ==> exists|k: int|
                0 <= k < t.entries.len() && (#[trigger] t.entries[k]).state == 2
                    && t.entries[k].remote_daemon_id == id && t.entries[k].key_id.text() == Some(
                    key_id,
                )
        }),
{
    let t = activated(s, id, key_id);
    store::law_key_to_activate_exactly(s.entries, id, key_id);
    store::law_generations_count_up(s.generation);
    if let Some(i) = store::key_of(s.entries, id, key_id) {
        assert(t.entries[i].state == 2 && t.entries[i].remote_daemon_id == id
            && t.entries[i].key_id.text() == Some(key_id));
        if s.entries[i].state == 1 {
            assert(t.entries[i] != s.entries[i]);
        }
    }
}

/// A peer's key is taken as known only if the session with that very daemon and entity has
/// that very key.
pub proof fn law_known_key_is_the_sessions_own(
    s: StoreView,
    id: u64,
    sae: Seq<char>,
    key_id: Seq<char>,
)
    ensures
        known_inbound(s, id, sae, key_id) ==> (session_with(s, id) matches Some(k)
            && k.remote_daemon_id == id && k.remote_sae_id == sae && k.key_id == key_id),
        (session_with(s, id) matches Some(k) && k.remote_sae_id == sae && k.key_id == key_id)
            ==> known_inbound(s, id, sae, key_id),
{
    store::law_session_of_a_daemon_exactly(store::local_text(s), s.entries, id, false);
    if let Some(k) = session_with(s, id) {
        let es = s.entries;
        let local = store::local_text(s);
        let i = choose|i: int|
            0 <= i < es.len() && store::of_daemon(#[trigger] es[i], id, false) && store::shows(
                local,
                es[i],
                k,
            ) && (forall|j: int| 0 <= j < i ==> !store::of_daemon(#[trigger] es[j], id, false));
        store::law_key_to_activate_exactly(es, id, k.key_id);
        assert(es[i].key_id.text() == Some(k.key_id));
    }
}

/// Once the other end has accepted a key, the daemon there is told exactly if a readable
/// session has that key, and the session's key is active from then on. Where none has it
/// nothing changes.
pub proof fn law_accepted_key_becomes_active(s: StoreView, key_id: Seq<char>)
    requires
        store::local_text(s) is Some,
    ensures
        acknowledged(s, key_id).1 is Some <==> exists|i: int|
            0 <= i < s.entries.len() && store::readable(#[trigger] s.entries[i])
                && s.entries[i].key_id.text() == Some(key_id),
        acknowledged(s, key_id).1 is None ==> acknowledged(s, key_id).0 == s,
        acknowledged(s, key_id).1 matches Some(id) ==> exists|i: int|
            0 <= i < s.entries.len() && (#[trigger] acknowledged(s, key_id).0.entries[i]).state
                == 2 && s.entries[i].remote_daemon_id == id && s.entries[i].key_id.text() == Some(
                key_id,
            ),
{
    let es = s.entries;
    let local = store::local_text(s);
    let q = QueryView::Key { key_id, require_active: false, remote_sae_id: None };
    store::law_session_of_a_key_exactly(local, es, key_id, false, None);
    match store::found(q, local, es) {
        Some(k) => {
            let i = choose|i: int|
                0 <= i < es.len() && store::of_key(#[trigger] es[i], key_id, false, None)
                    && store::shows(local, es[i], k) && (forall|j: int|
                    0 <= j < i ==> !store::of_key(#[trigger] es[j], key_id, false, None));
            assert(store::readable(es[i]) && es[i].key_id.text() == Some(key_id));
            let id = k.remote_daemon_id;
            store::law_key_to_activate_exactly(es, id, key_id);
            if k.active {
                assert(acknowledged(s, key_id).0.entries[i].state == 2);
            } else {
                let p = store::key_of(es, id, key_id)->0;
                assert(activated(s, id, key_id).entries[p].state == 2);
                assert(acknowledged(s, key_id).0.entries[p].state == 2);
            }
        },
        None => {
            assert forall|i: int| 0 <= i < es.len() implies !(store::readable(#[trigger] es[i])
                && es[i].key_id.text() == Some(key_id)) by {
                assert(!store::of_key(es[i], key_id, false, None));
            }
        },
    }
}

} // verus!
