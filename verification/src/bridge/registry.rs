//! The sessions that callers in C hold by number.
use crate::bridge::settings::missing_session;
use crate::session::Session;
#[allow(unused_imports)]
use crate::text;
use std::collections::HashMap;
use vstd::prelude::*;
use vstd::std_specs::hash::*;

verus! {

broadcast use group_hash_axioms;

/// A session that a caller holds.
pub struct HeldSession {
    pub session: Session,
    /// Whether it was asked to end its work.
    pub shutdown_requested: bool,
}

/// A set of things that a caller waits for, and the session it belongs to.
#[derive(Clone, Copy, Debug, PartialEq, Eq, Structural)]
pub struct HeldWaitSet {
    pub session: u64,
    pub handle: u64,
}

/// The sessions and wait sets that callers hold.
pub struct Registry {
    pub sessions: HashMap<u64, HeldSession>,
    pub wait_sets: Vec<HeldWaitSet>,
    pub next_session: u64,
    pub next_wait_set: u64,
}

/// What a registry holds.
#[verifier::ext_equal]
pub struct RegistryView {
    pub sessions: Map<u64, HeldSession>,
    pub wait_sets: Seq<HeldWaitSet>,
    pub next_session: u64,
    pub next_wait_set: u64,
}

impl View for Registry {
    type V = RegistryView;

    open spec fn view(&self) -> RegistryView {
        RegistryView {
            sessions: self.sessions@,
            wait_sets: self.wait_sets@,
            next_session: self.next_session,
            next_wait_set: self.next_wait_set,
        }
    }
}

impl RegistryView {
    /// Whether every number that is in use was handed out, and each wait set has one of
    /// its own.
    pub open spec fn wf(self) -> bool {
        &&& self.sessions.dom().finite()
        &&& self.next_session > 0
        &&& forall|id: u64| #[trigger]
            self.sessions.contains_key(id) ==> 0 < id < self.next_session
        &&& forall|i: int|
            0 <= i < self.wait_sets.len() ==> (#[trigger] self.wait_sets[i]).handle
                < self.next_wait_set
        &&& forall|i: int, j: int|
            0 <= i < j < self.wait_sets.len() ==> (#[trigger] self.wait_sets[i]).handle != (
            #[trigger] self.wait_sets[j]).handle
    }
}

/// The wait sets that do not belong to a session.
pub open spec fn of_others(s: Seq<HeldWaitSet>, session: u64) -> Seq<HeldWaitSet> {
    s.filter(|w: HeldWaitSet| w.session != session)
}

/// A registry without a session and its wait sets.
pub open spec fn destroyed(r: RegistryView, id: u64) -> RegistryView {
    if r.sessions.contains_key(id) {
        RegistryView {
            sessions: r.sessions.remove(id),
            wait_sets: of_others(r.wait_sets, id),
            ..r
        }
    } else {
        r
    }
}

/// A registry in which a session was asked to end its work.
pub open spec fn ending(r: RegistryView, id: u64) -> RegistryView {
    if r.sessions.contains_key(id) {
        RegistryView {
            sessions: r.sessions.insert(
                id,
                HeldSession { shutdown_requested: true, ..r.sessions[id] },
            ),
            ..r
        }
    } else {
        r
    }
}

/// The place of a wait set.
pub open spec fn wait_set_at(s: Seq<HeldWaitSet>, session: u64, handle: u64, i: int) -> bool {
    0 <= i < s.len() && s[i] == (HeldWaitSet { session, handle })
}

impl Registry {
    /// A registry of nothing.
    pub fn new() -> (r: Registry)
        ensures
            r@.wf(),
            r@ == (RegistryView {
                sessions: Map::empty(),
                wait_sets: Seq::empty(),
                next_session: 1,
                next_wait_set: 1,
            }),
    {
        Registry {
            sessions: HashMap::new(),
            wait_sets: Vec::new(),
            next_session: 1,
            next_wait_set: 1,
        }
    }

    /// Takes a session in. Its number, which no session had before.
    pub fn axon_session_create(&mut self, session: Session) -> (r: i64)
        requires
            old(self)@.wf(),
            old(self)@.next_session < i64::MAX,
        ensures
            final(self)@.wf(),
            r == old(self)@.next_session,
            !old(self)@.sessions.contains_key(r as u64),
            final(self)@ == (RegistryView {
                sessions: old(self)@.sessions.insert(
                    r as u64,
                    HeldSession { session, shutdown_requested: false },
                ),
                next_session: (r + 1) as u64,
                ..old(self)@
            }),
    {
        let id: u64 = self.next_session;
        self.next_session = id + 1;
        self.sessions.insert(id, HeldSession { session, shutdown_requested: false });
        id as i64
    }

    /// The session of a number; where there is none, what is said of it.
    pub fn with_session(&self, id: u64) -> (r: Result<&Session, String>)
        ensures
            match r {
                Ok(s) => self@.sessions.contains_key(id) && *s == self@.sessions[id].session,
                Err(e) => !self@.sessions.contains_key(id) && e@ == "session "@ + text::decimal(
                    id as nat,
                ) + " not found ("@ + text::decimal(self@.sessions.len()) + " sessions exist)"@,
            },
    {
        match self.sessions.get(&id) {
            Some(held) => Ok(&held.session),
            None => Err(missing_session(id, self.sessions.len())),
        }
    }

    /// Asks a session to end its work; it may be asked again.
    pub fn axon_session_shutdown(&mut self, id: u64) -> (r: i32)
        requires
            old(self)@.wf(),
        ensures
            final(self)@.wf(),
            r == (if old(self)@.sessions.contains_key(id) {
                0i32
            } else {
                -1i32
            }),
            final(self)@ == ending(old(self)@, id),
    {
        let ghost before = self@;
        match self.sessions.remove(&id) {
            Some(held) => {
                let session = held.session;
                self.sessions.insert(id, HeldSession { session, shutdown_requested: true });
                proof {
                    assert(self@.sessions =~= ending(before, id).sessions);
                }
                0
            },
            None => {
                proof {
                    assert(self@.sessions =~= before.sessions);
                }
                -1
            },
        }
    }

    /// Gives a session up, and its wait sets with it.
    pub fn axon_session_destroy(&mut self, id: u64) -> (r: i32)
        requires
            old(self)@.wf(),
        ensures
            final(self)@.wf(),
            r == (if old(self)@.sessions.contains_key(id) {
                0i32
            } else {
                -1i32
            }),
            final(self)@ == destroyed(old(self)@, id),
    {
        let ghost before = self@;
        match self.sessions.remove(&id) {
            Some(_) => {
                let mut kept: Vec<HeldWaitSet> = Vec::new();
                let mut i: usize = 0;
                let ghost all = self.wait_sets@;
                let ghost other = |w: HeldWaitSet| w.session != id;
                proof {
                    assert(all.subrange(0, 0).filter(other) =~= Seq::empty()) by {
                        reveal(Seq::filter);
                    }
                }
                while i < self.wait_sets.len()
                    invariant
                        i <= all.len(),
                        self.wait_sets@ == all,
                        other == (|w: HeldWaitSet| w.session != id),
                        kept@ == all.subrange(0, i as int).filter(other),
                        self.sessions@ == before.sessions.remove(id),
                        self.next_session == before.next_session,
                        self.next_wait_set == before.next_wait_set,
                    decreases all.len() - i,
                {
                    let w = self.wait_sets[i];
                    if w.session != id {
                        kept.push(w);
                    }
                    proof {
                        let upto = all.subrange(0, i + 1);
                        assert(upto.drop_last() =~= all.subrange(0, i as int));
                        assert(upto.last() == w);
                        reveal(Seq::filter);
                    }
                    i += 1;
                }
                self.wait_sets = kept;
                proof {
                    assert(all.subrange(0, i as int) =~= all);
                    assert(self@ =~= destroyed(before, id));
                    lemma_filter_keeps(all, other);
                }
                0
            },
            None => {
                proof {
                    assert(self@.sessions =~= before.sessions);
                }
                -1
            },
        }
    }

    /// Makes a wait set for a session. Its number, which no wait set had before.
    pub fn axon_session_create_waitset(&mut self, session: u64) -> (r: i64)
        requires
            old(self)@.wf(),
            old(self)@.next_wait_set < i64::MAX,
        ensures
            final(self)@.wf(),
            r == old(self)@.next_wait_set,
            final(self)@ == (RegistryView {
                wait_sets: old(self)@.wait_sets.push(HeldWaitSet { session, handle: r as u64 }),
                next_wait_set: (r + 1) as u64,
                ..old(self)@
            }),
    {
        let handle: u64 = self.next_wait_set;
        self.next_wait_set = handle + 1;
        self.wait_sets.push(HeldWaitSet { session, handle });
        handle as i64
    }

    /// Gives a wait set of a session up.
    pub fn axon_session_destroy_waitset(&mut self, session: u64, handle: u64) -> (r: i32)
        requires
            old(self)@.wf(),
        ensures
            final(self)@.wf(),
            r == 0 || r == -1,
            r == -1 ==> final(self)@ == old(self)@ && forall|i: int|
                !#[trigger] wait_set_at(old(self)@.wait_sets, session, handle, i),
            r == 0 ==> exists|i: int| #[trigger]
                wait_set_at(old(self)@.wait_sets, session, handle, i) && final(self)@ == (
                RegistryView { wait_sets: old(self)@.wait_sets.remove(i), ..old(self)@ }),
    {
        let ghost before = self@;
        let mut i: usize = 0;
        while i < self.wait_sets.len()
            invariant
                i <= before.wait_sets.len(),
                self@ == before,
                before == old(self)@,
                before.wf(),
                forall|k: int|
                    0 <= k < i ==> before.wait_sets[k] != (HeldWaitSet { session, handle }),
            decreases before.wait_sets.len() - i,
        {
            let w = self.wait_sets[i];
            if w.session == session && w.handle == handle {
                self.wait_sets.remove(i);
                proof {
                    assert(wait_set_at(before.wait_sets, session, handle, i as int));
                    assert(self@ =~= (RegistryView {
                        wait_sets: before.wait_sets.remove(i as int),
                        ..before
                    }));
                }
                return 0;
            }
            i += 1;
        }
        -1
    }
}

proof fn lemma_filter_keeps(s: Seq<HeldWaitSet>, keep: spec_fn(HeldWaitSet) -> bool)
    requires
        forall|i: int, j: int|
            0 <= i < j < s.len() ==> (#[trigger] s[i]).handle != (#[trigger] s[j]).handle,
    ensures
        forall|i: int|
            0 <= i < s.filter(keep).len() ==> s.contains(#[trigger] s.filter(keep)[i]),
        forall|i: int, j: int|
            0 <= i < j < s.filter(keep).len() ==> (#[trigger] s.filter(keep)[i]).handle != (
            #[trigger] s.filter(keep)[j]).handle,
    decreases s.len(),
{
    reveal(Seq::filter);
    if s.len() > 0 {
        let t = s.drop_last();
        lemma_filter_keeps(t, keep);
        let f = t.filter(keep);
        let g = s.filter(keep);
        assert forall|i: int| 0 <= i < g.len() implies s.contains(#[trigger] g[i]) by {
            if i < f.len() {
                assert(g[i] == f[i]);
                let k = choose|k: int| 0 <= k < t.len() && t[k] == f[i];
                assert(s[k] == g[i]);
            } else {
                assert(s[s.len() - 1] == g[i]);
            }
        }
        assert forall|i: int, j: int| 0 <= i < j < g.len() implies (#[trigger] g[i]).handle != (
        #[trigger] g[j]).handle by {
            assert(g[i] == f[i]);
            if j < f.len() {
                assert(g[j] == f[j]);
            } else {
                let k = choose|k: int| 0 <= k < t.len() && t[k] == f[i];
                assert(s[k] == g[i] && s[s.len() - 1] == g[j]);
            }
        }
    }
}

/// A session that was given up is gone with its wait sets, and giving it up again fails;
/// every other session stays as it was.
pub proof fn law_destroyed_session_is_gone(r: RegistryView, id: u64, other: u64)
    requires
        other != id,
    ensures
        !destroyed(r, id).sessions.contains_key(id),
        r.sessions.contains_key(id) ==> forall|i: int|
            0 <= i < destroyed(r, id).wait_sets.len() ==> (#[trigger] destroyed(
                r,
                id,
            ).wait_sets[i]).session != id,
        destroyed(destroyed(r, id), id) == destroyed(r, id),
        destroyed(r, id).sessions.contains_key(other) == r.sessions.contains_key(other),
        r.sessions.contains_key(other) ==> destroyed(r, id).sessions[other] == r.sessions[other],
{
    broadcast use vstd::seq_lib::group_filter_ensures;

}

/// To ask a session again to end its work changes nothing, and no other session notices.
pub proof fn law_shutdown_is_idempotent(r: RegistryView, id: u64, other: u64)
    requires
        other != id,
    ensures
        ending(ending(r, id), id) == ending(r, id),
        ending(r, id).sessions.contains_key(id) == r.sessions.contains_key(id),
        ending(r, id).sessions.contains_key(other) == r.sessions.contains_key(other),
        r.sessions.contains_key(other) ==> ending(r, id).sessions[other] == r.sessions[other],
{
    assert(ending(ending(r, id), id).sessions =~= ending(r, id).sessions);
}

/// Giving a session up takes its own wait sets away and leaves those of every other
/// session; its number is not handed out again, and where no such session is held
/// nothing changes.
pub proof fn law_other_wait_sets_stay(r: RegistryView, id: u64, w: HeldWaitSet)
    ensures
        r.sessions.contains_key(id) ==> (destroyed(r, id).wait_sets.contains(w)
            <==> r.wait_sets.contains(w) && w.session != id),
        destroyed(r, id).next_session == r.next_session,
        destroyed(r, id).next_wait_set == r.next_wait_set,
        !r.sessions.contains_key(id) ==> destroyed(r, id) == r,
{
    broadcast use vstd::seq_lib::group_filter_ensures;

    let keep = |x: HeldWaitSet| x.session != id;
    let s = r.wait_sets;
    let f = s.filter(keep);
    if f.contains(w) {
        let k = choose|k: int| 0 <= k < f.len() && f[k] == w;
        assert(keep(f[k]));
        lemma_filtered_from(s, keep, k);
    }
    if s.contains(w) && w.session != id {
        let k = choose|k: int| 0 <= k < s.len() && s[k] == w;
        assert(keep(s[k]));
        assert(f.contains(s[k]));
    }
}

proof fn lemma_filtered_from(s: Seq<HeldWaitSet>, keep: spec_fn(HeldWaitSet) -> bool, k: int)
    requires
        0 <= k < s.filter(keep).len(),
    ensures
        s.contains(s.filter(keep)[k]),
    decreases s.len(),
{
    reveal(Seq::filter);
    if s.len() > 0 {
        let t = s.drop_last();
        let f = t.filter(keep);
        if k < f.len() {
            lemma_filtered_from(t, keep, k);
            let j = choose|j: int| 0 <= j < t.len() && t[j] == f[k];
            assert(s[j] == f[k]);
        } else {
            assert(s[s.len() - 1] == s.filter(keep)[k]);
        }
    }
}

/// A session that is asked to end its work notes it, keeps all else, and stays held;
/// where none is held nothing changes.
pub proof fn law_shutdown_is_noted(r: RegistryView, id: u64)
    ensures
        r.sessions.contains_key(id) ==> ending(r, id).sessions[id].shutdown_requested && ending(
            r,
            id,
        ).sessions[id].session == r.sessions[id].session,
        !r.sessions.contains_key(id) ==> ending(r, id) == r,
        ending(r, id).wait_sets == r.wait_sets,
        ending(r, id).next_session == r.next_session,
{
}

} // verus!
