//! The other daemons that this one knows, and what it does with what they say.
use std::collections::HashMap;

use vstd::prelude::*;
use vstd::std_specs::hash::*;

use crate::daemon::peer_discovery::{HelloDaemon, HelloView, DAEMON_HELLO_INTERVAL_MS};
#[allow(unused_imports)]
use crate::daemon::peer_sync;
use crate::daemon::peer_sync::sync_request_daemon_id;
#[allow(unused_imports)]
use crate::qkd::keys;
use crate::qkd::keys::{
    decode_key_ack, decode_key_announcement, encode_key_ack, encode_key_announcement,
    encode_key_error, QkdKeyAnnouncement, MSG_QKD_KEY_ACK, MSG_QKD_KEY_ANNOUNCE,
    MSG_QKD_KEY_ERROR,
};
#[allow(unused_imports)]
use crate::qkd::manager;
use crate::qkd::manager::QkdDaemonManager;
#[allow(unused_imports)]
use crate::qkd::store;
use crate::qkd::store::{QueryView, StoreView};
use crate::quic_transport::PeerAddr;
use crate::security_mode::SecurityMode;
use crate::text::text_equal;

verus! {

broadcast use group_hash_axioms;

/// How long a daemon may be silent before it counts as gone, in milliseconds.
pub const PEER_TIMEOUT_MS: u64 = 10_000;

/// What is remembered of another daemon.
pub struct KnownPeer {
    pub addr: PeerAddr,
    /// The last of its topology revisions that was seen.
    pub generation: u64,
    /// The domains of this host when that revision was seen.
    pub domains: Vec<u32>,
    /// When it was last heard of, in milliseconds.
    pub seen: u64,
}

#[verifier::ext_equal]
pub struct PeerView {
    pub addr: PeerAddr,
    pub generation: u64,
    pub domains: Seq<u32>,
    pub seen: u64,
}

impl View for KnownPeer {
    type V = PeerView;

    open spec fn view(&self) -> PeerView {
        PeerView {
            addr: self.addr,
            generation: self.generation,
            domains: self.domains@,
            seen: self.seen,
        }
    }
}

/// The daemons that are known, by their identities.
pub struct KnownPeers {
    pub peers: HashMap<u64, KnownPeer>,
}

impl View for KnownPeers {
    type V = Map<u64, PeerView>;

    open spec fn view(&self) -> Map<u64, PeerView> {
        self.peers@.map_values(|p: KnownPeer| p@)
    }
}

/// Whether a greeting brings something new: its sender is unknown, its revision is
/// later than the last one, or this host's domains changed since then.
pub open spec fn brings_news(
    peers: Map<u64, PeerView>,
    id: u64,
    generation: u64,
    domains: Seq<u32>,
) -> bool {
    !peers.contains_key(id) || generation > peers[id].generation || peers[id].domains != domains
}

/// What is remembered of a daemon after its greeting. The revision never steps back.
pub open spec fn after_hello(
    peers: Map<u64, PeerView>,
    id: u64,
    addr: PeerAddr,
    generation: u64,
    domains: Seq<u32>,
    now: u64,
) -> PeerView {
    PeerView {
        addr,
        generation: if peers.contains_key(id) && generation <= peers[id].generation {
            peers[id].generation
        } else {
            generation
        },
        domains,
        seen: now,
    }
}

/// The same numbers in another vector.
fn copy_numbers(s: &[u32]) -> (r: Vec<u32>)
    ensures
        r@ == s@,
{
    let mut r: Vec<u32> = Vec::new();
    let mut i: usize = 0;
    while i < s.len()
        invariant
            i <= s@.len(),
            r@ == s@.subrange(0, i as int),
        decreases s@.len() - i,
    {
        r.push(s[i]);
        i += 1;
    }
    proof {
        assert(s@.subrange(0, i as int) =~= s@);
    }
    r
}

/// Whether two lists of numbers are the same.
fn numbers_equal(a: &[u32], b: &[u32]) -> (r: bool)
    ensures
        r == (a@ == b@),
{
    if a.len() != b.len() {
        return false;
    }
    let mut i: usize = 0;
    while i < a.len()
        invariant
            i <= a@.len() == b@.len(),
            forall|k: int| 0 <= k < i ==> a@[k] == b@[k],
        decreases a@.len() - i,
    {
        if a[i] != b[i] {
            return false;
        }
        i += 1;
    }
    proof {
        assert(a@ =~= b@);
    }
    true
}

impl KnownPeers {
    /// No daemon is known yet.
    pub fn new() -> (r: KnownPeers)
        ensures
            r@ == Map::<u64, PeerView>::empty(),
    {
        let r = KnownPeers { peers: HashMap::new() };
        proof {
            assert(r@ =~= Map::<u64, PeerView>::empty());
        }
        r
    }

    /// What is remembered of a daemon.
    pub fn get(&self, daemon_id: u64) -> (r: Option<&KnownPeer>)
        ensures
            match r {
                Some(p) => self@.contains_key(daemon_id) && p@ == self@[daemon_id],
                None => !self@.contains_key(daemon_id),
            },
    {
        self.peers.get(&daemon_id)
    }

    /// Forgets a daemon, so that its next greeting counts as new.
    pub fn forget(&mut self, daemon_id: u64)
        ensures
            final(self)@ == old(self)@.remove(daemon_id),
    {
        let ghost before = self@;
        self.peers.remove(&daemon_id);
        proof {
            assert(self@ =~= before.remove(daemon_id));
        }
    }

    /// The daemons that have been silent for too long. In which order they come is
    /// left open.
    pub fn stale(&self, now: u64) -> (r: Vec<u64>)
        ensures
            r@.no_duplicates(),
            forall|id: u64| #[trigger]
                r@.contains(id) <==> self@.contains_key(id) && now - self@[id].seen
                    > PEER_TIMEOUT_MS,
            forall|id: u64| #[trigger]
                r@.contains(id) ==> self@.contains_key(id) && now > self@[id].seen + 10_000,
            forall|id: u64| #[trigger]
                self@.contains_key(id) && now > self@[id].seen + 10_000 ==> r@.contains(id),
    {
        let mut ids: Vec<u64> = Vec::new();
        for id in it: self.peers.keys()
            invariant
                it.seq().no_duplicates(),
                it.seq().unref().to_set() == self.peers@.dom(),
                ids@ == it.seq().unref().take(it.index()),
                it.index() == it.seq().len() ==> ids@ =~= it.seq().unref(),
        {
            ids.push(*id);
        }
        let ghost all = ids@;
        proof {
            assert forall|a: int, b: int| 0 <= a < b < all.len() implies all[a] != all[b] by {}
            assert forall|k: u64| self.peers@.contains_key(k) implies #[trigger] all.contains(
                k,
            ) by {
                assert(all.to_set().contains(k));
            }
            assert forall|k: u64| #[trigger] all.contains(k) implies self.peers@.contains_key(
                k,
            ) by {
                assert(all.to_set().contains(k));
            }
        }
        let mut out: Vec<u64> = Vec::new();
        let mut i: usize = 0;
        while i < ids.len()
            invariant
                i <= ids@.len(),
                ids@ == all,
                all.no_duplicates(),
                forall|k: u64| #[trigger] all.contains(k) <==> self.peers@.contains_key(k),
                out@.no_duplicates(),
                forall|a: int|
                    0 <= a < out@.len() ==> (exists|b: int| 0 <= b < i && all[b] == #[trigger] out@[a])
                        && self@.contains_key(out@[a]) && now - self@[out@[a]].seen
                        > PEER_TIMEOUT_MS,
                forall|b: int|
                    0 <= b < i && now - self@[#[trigger] all[b]].seen > PEER_TIMEOUT_MS
                        ==> out@.contains(all[b]),
            decreases ids@.len() - i,
        {
            let id: u64 = ids[i];
            let ghost before = out@;
            proof {
                assert(all.contains(all[i as int]));
            }
            if let Some(p) = self.peers.get(&id) {
                if now > p.seen && now - p.seen > PEER_TIMEOUT_MS {
                    out.push(id);
                }
            }
            proof {
                assert forall|b: int|
                    0 <= b < i + 1 && now - self@[#[trigger] all[b]].seen
                        > PEER_TIMEOUT_MS implies out@.contains(all[b]) by {
                    if b < i {
                        assert(before.contains(all[b]));
                        let a = choose|a: int| 0 <= a < before.len() && before[a] == all[b];
                        assert(out@[a] == all[b]);
                    } else {
                        assert(out@[out@.len() - 1] == all[b]);
                    }
                }
                assert forall|a: int| 0 <= a < out@.len() implies (exists|b: int|
                    0 <= b < i + 1 && all[b] == #[trigger] out@[a]) by {
                    if a < before.len() {
                        assert(out@[a] == before[a]);
                    } else {
                        assert(all[i as int] == out@[a]);
                    }
                }
            }
            i += 1;
        }
        proof {
            assert forall|id: u64| #[trigger] out@.contains(id) <==> self@.contains_key(id) && now
                - self@[id].seen > PEER_TIMEOUT_MS by {
                if self@.contains_key(id) {
                    assert(all.contains(id));
                    let b = choose|b: int| 0 <= b < all.len() && all[b] == id;
                    assert(all[b] == id);
                }
            }
        }
        out
    }
}

/// Remembers a greeting, and says whether it brings something new. The address and
/// the time are always taken over.
pub fn record_peer_hello(
    known_peers: &mut KnownPeers,
    daemon_id: u64,
    peer_addr: PeerAddr,
    generation: u64,
    local_domains: &[u32],
    now: u64,
) -> (r: bool)
    ensures
        r == brings_news(old(known_peers)@, daemon_id, generation, local_domains@),
        final(known_peers)@ == old(known_peers)@.insert(
            daemon_id,
            after_hello(
                old(known_peers)@,
                daemon_id,
                peer_addr,
                generation,
                local_domains@,
                now,
            ),
        ),
{
    let ghost before = known_peers@;
    let (news, kept): (bool, u64) = match known_peers.peers.get(&daemon_id) {
        None => (true, generation),
        Some(known) => if generation > known.generation {
            (true, generation)
        } else {
            (!numbers_equal(&known.domains, local_domains), known.generation)
        },
    };
    let peer = KnownPeer {
        addr: peer_addr,
        generation: kept,
        domains: copy_numbers(local_domains),
        seen: now,
    };
    let ghost remembered = peer@;
    known_peers.peers.insert(daemon_id, peer);
    proof {
        assert(known_peers@ =~= before.insert(daemon_id, remembered));
    }
    news
}

/// A greeting that was just recorded brings nothing new when it comes again, nor
/// does an earlier revision, from whichever address, as long as this host's domains
/// stay the same.
pub proof fn law_repeated_hello_is_no_news(
    peers: Map<u64, PeerView>,
    id: u64,
    addr: PeerAddr,
    generation: u64,
    domains: Seq<u32>,
    now: u64,
    again: u64,
)
    requires
        again <= generation,
    ensures
        !brings_news(
            peers.insert(id, after_hello(peers, id, addr, generation, domains, now)),
            id,
            again,
            domains,
        ),
{
}

/// Whether the numbers ascend.
pub open spec fn ascending(s: Seq<u32>) -> bool {
    forall|i: int, j: int| 0 <= i < j < s.len() ==> s[i] <= s[j]
}

/// Ascending numbers with one more in its place.
pub open spec fn inserted(s: Seq<u32>, n: u32) -> Seq<u32>
    decreases s.len(),
{
    if s.len() == 0 || s.last() <= n {
        s.push(n)
    } else {
        inserted(s.drop_last(), n).push(s.last())
    }
}

/// The numbers in ascending order.
pub open spec fn in_order(s: Seq<u32>) -> Seq<u32>
    decreases s.len(),
{
    if s.len() == 0 {
        s
    } else {
        inserted(in_order(s.drop_last()), s.last())
    }
}

proof fn lemma_inserted(s: Seq<u32>, n: u32, at: int)
    requires
        0 <= at <= s.len(),
        at > 0 ==> s[at - 1] <= n,
        forall|k: int| at <= k < s.len() ==> s[k] > n,
    ensures
        inserted(s, n) == s.insert(at, n),
    decreases s.len(),
{
    if at == s.len() {
        assert(s.insert(at, n) =~= s.push(n));
    } else {
        lemma_inserted(s.drop_last(), n, at);
        assert(s.drop_last().insert(at, n).push(s.last()) =~= s.insert(at, n));
    }
}

/// The domains in ascending order.
pub fn sorted_domains(domains: &[u32]) -> (r: Vec<u32>)
    ensures
        r@ == in_order(domains@),
        ascending(r@),
        r@.to_multiset() == domains@.to_multiset(),
{
    let mut out: Vec<u32> = Vec::new();
    let mut i: usize = 0;
    proof {
        assert(domains@.subrange(0, 0) =~= Seq::<u32>::empty());
        assert(out@ =~= Seq::<u32>::empty());
    }
    while i < domains.len()
        invariant
            i <= domains@.len(),
            ascending(out@),
            out@ == in_order(domains@.subrange(0, i as int)),
            out@.to_multiset() == domains@.subrange(0, i as int).to_multiset(),
        decreases domains@.len() - i,
    {
        let d: u32 = domains[i];
        let mut at: usize = out.len();
        while at > 0 && out[at - 1] > d
            invariant
                at <= out@.len(),
                forall|k: int| at <= k < out@.len() ==> out@[k] > d,
            decreases at,
        {
            at -= 1;
        }
        let ghost before = out@;
        out.insert(at, d);
        proof {
            assert(domains@.subrange(0, i + 1) =~= domains@.subrange(0, i as int).push(d));
            vstd::seq_lib::to_multiset_build(domains@.subrange(0, i as int), d);
            vstd::seq_lib::to_multiset_insert(before, at as int, d);
            assert(out@ == before.insert(at as int, d));
            lemma_inserted(before, d, at as int);
            assert(domains@.subrange(0, i + 1).drop_last() =~= domains@.subrange(0, i as int));
            assert forall|a: int, b: int| 0 <= a < b < out@.len() implies out@[a] <= out@[b] by {
                let pa = if a < at { a } else { a - 1 };
                let pb = if b < at { b } else { b - 1 };
                if a != at && b != at {
                    assert(before[pa] <= before[pb]);
                } else if a == at {
                    assert(before[pb] > d);
                } else if at > 0 {
                    assert(before[pa] <= before[at - 1]);
                }
            }
        }
        i += 1;
    }
    proof {
        assert(domains@.subrange(0, i as int) =~= domains@);
    }
    out
}

/// The domains of a peer that this host has too, in the peer's order.
pub open spec fn shared(theirs: Seq<u32>, ours: Seq<u32>) -> Seq<u32>
    decreases theirs.len(),
{
    if theirs.len() == 0 {
        Seq::empty()
    } else {
        let rest = shared(theirs.drop_last(), ours);
        if ours.contains(theirs.last()) {
            rest.push(theirs.last())
        } else {
            rest
        }
    }
}

fn has_number(s: &[u32], n: u32) -> (r: bool)
    ensures
        r == s@.contains(n),
{
    let mut i: usize = 0;
    while i < s.len()
        invariant
            i <= s@.len(),
            forall|k: int| 0 <= k < i ==> s@[k] != n,
        decreases s@.len() - i,
    {
        if s[i] == n {
            return true;
        }
        i += 1;
    }
    false
}

/// The domains of a peer that this host has too.
pub fn shared_domains(theirs: &[u32], ours: &[u32]) -> (r: Vec<u32>)
    ensures
        r@ == shared(theirs@, ours@),
{
    let mut out: Vec<u32> = Vec::new();
    let mut i: usize = 0;
    proof {
        assert(theirs@.subrange(0, 0) =~= Seq::<u32>::empty());
    }
    while i < theirs.len()
        invariant
            i <= theirs@.len(),
            out@ == shared(theirs@.subrange(0, i as int), ours@),
        decreases theirs@.len() - i,
    {
        proof {
            assert(theirs@.subrange(0, i + 1).drop_last() =~= theirs@.subrange(0, i as int));
        }
        if has_number(ours, theirs[i]) {
            out.push(theirs[i]);
        }
        i += 1;
    }
    proof {
        assert(theirs@.subrange(0, i as int) =~= theirs@);
    }
    out
}

/// Whether a greeting is to be sent: the interval is over, or the topology changed.
pub fn hello_due(elapsed_ms: u64, changed: bool) -> (r: bool)
    ensures
        r == (elapsed_ms >= DAEMON_HELLO_INTERVAL_MS || changed),
        r <==> changed || elapsed_ms >= 500,
{
    elapsed_ms >= DAEMON_HELLO_INTERVAL_MS || changed
}

/// The revision that the next greeting carries. It steps where the topology
/// changed, and is never zero.
pub fn next_hello_generation(generation: u64, changed: bool) -> (r: u64)
    ensures
        r == (if !changed {
            generation
        } else if generation == u64::MAX {
            1
        } else {
            (generation + 1) as u64
        }),
{
    if !changed {
        generation
    } else if generation == 18446744073709551615 {
        1
    } else {
        generation + 1
    }
}

/// Whether there is an active key for the session with a daemon.
pub open spec fn session_active(s: StoreView, id: u64) -> bool {
    store::found(
        QueryView::Daemon { id, require_active: true },
        store::local_text(s),
        s.entries,
    ) is Some
}

/// Whether a session with the daemon still waits for its key.
pub open spec fn key_missing(m: Option<&QkdDaemonManager>, id: u64) -> bool {
    m is Some && !session_active(m->0.store@, id)
}

/// What comes of a greeting.
pub enum HelloStep {
    /// It is this daemon's own.
    Own,
    /// Its sender has another security profile.
    OtherProfile,
    /// It brings nothing new.
    NothingNew,
    /// Its sender shares no domain with this host.
    Apart,
    /// The topology is to be exchanged with its sender.
    Sync { addr: PeerAddr, domains: Vec<u32> },
}

/// Where the sender of a greeting takes connections.
pub open spec fn peer_addr(src: PeerAddr, h: HelloView) -> PeerAddr {
    PeerAddr { v6: src.v6, ip: src.ip, port: h.quic_port, flow: 0, scope: 0 }
}

/// Decides what to do with a greeting. One of another daemon with the same profile is
/// remembered in any case.
pub fn receive_hello(
    known_peers: &mut KnownPeers,
    daemon_id: u64,
    security_mode: SecurityMode,
    manager: Option<&QkdDaemonManager>,
    active_domains: &[u32],
    hello: &HelloDaemon,
    src_addr: PeerAddr,
    now: u64,
) -> (r: HelloStep)
    requires
        manager is Some ==> manager->0.wf(),
    ensures
        hello.daemon_id == daemon_id ==> r is Own && final(known_peers)@ == old(known_peers)@,
        hello.daemon_id != daemon_id && hello.security_mode != security_mode ==> r is OtherProfile
            && final(known_peers)@ == old(known_peers)@,
        hello.daemon_id != daemon_id && hello.security_mode == security_mode ==> {
            let ours = in_order(active_domains@);
            let due = brings_news(
                old(known_peers)@,
                hello.daemon_id,
                hello.generation,
                ours,
            ) || key_missing(manager, hello.daemon_id);
            &&& final(known_peers)@ == old(known_peers)@.insert(
                hello.daemon_id,
                after_hello(
                    old(known_peers)@,
                    hello.daemon_id,
                    peer_addr(src_addr, hello@),
                    hello.generation,
                    ours,
                    now,
                ),
            )
            &&& r is NothingNew <==> !due
            &&& r is Apart <==> due && shared(hello.domains@, ours).len() == 0
            &&& r is Sync <==> due && shared(hello.domains@, ours).len() > 0
            &&& r matches HelloStep::Sync { addr, domains } ==> domains@ == shared(
                hello.domains@,
                ours,
            ) && addr == peer_addr(src_addr, hello@)
        },
{
    if hello.daemon_id == daemon_id {
        return HelloStep::Own;
    }
    if hello.security_mode != security_mode {
        return HelloStep::OtherProfile;
    }
    let addr = PeerAddr {
        v6: src_addr.v6,
        ip: src_addr.ip,
        port: hello.quic_port,
        flow: 0,
        scope: 0,
    };
    let local_domains = sorted_domains(active_domains);
    let news = record_peer_hello(
        known_peers,
        hello.daemon_id,
        addr,
        hello.generation,
        &local_domains,
        now,
    );
    let pending = match manager {
        Some(m) => !m.has_active_session(hello.daemon_id),
        None => false,
    };
    if !news && !pending {
        return HelloStep::NothingNew;
    }
    let domains = shared_domains(&hello.domains, &local_domains);
    if domains.len() == 0 {
        return HelloStep::Apart;
    }
    HelloStep::Sync { addr, domains }
}

/// What has to happen before the topology can be exchanged with a daemon.
pub enum Bootstrap {
    /// Nothing: connect to it.
    Connect,
    /// A key for the session with this entity is to be had and announced.
    Announce(String),
    /// It did not say which entity it is.
    NoIdentity,
    /// It is the other daemon that announces the key.
    Wait,
}

/// Decides how a session with a daemon starts. Where keys come from a key manager
/// and none is active yet, the daemon with the lower identity gets and announces one
/// for the entity that the other advertised, or else for the configured one.
pub fn bootstrap_step(
    manager: Option<&QkdDaemonManager>,
    daemon_id: u64,
    remote_daemon_id: u64,
    advertised: Option<&str>,
    configured: Option<&str>,
) -> (r: Bootstrap)
    requires
        manager is Some ==> manager->0.wf(),
    ensures
        r is Connect <==> !key_missing(manager, remote_daemon_id),
        r is Wait <==> key_missing(manager, remote_daemon_id) && daemon_id >= remote_daemon_id,
        r is NoIdentity <==> key_missing(manager, remote_daemon_id) && daemon_id
            < remote_daemon_id && advertised is None && configured is None,
        r matches Bootstrap::Announce(sae) ==> sae@ == (if advertised is Some {
            advertised->0@
        } else {
            configured->0@
        }),
{
    let pending = match manager {
        Some(m) => !m.has_active_session(remote_daemon_id),
        None => false,
    };
    if !pending {
        return Bootstrap::Connect;
    }
    if daemon_id >= remote_daemon_id {
        return Bootstrap::Wait;
    }
    match advertised {
        Some(sae) => Bootstrap::Announce(sae.to_owned()),
        None => match configured {
            Some(sae) => Bootstrap::Announce(sae.to_owned()),
            None => Bootstrap::NoIdentity,
        },
    }
}

/// The message that announces the key of a session to the daemon at its other end.
pub fn announce_key(manager: &QkdDaemonManager, daemon_id: u64, key_id: &str) -> (r: Result<
    Vec<u8>,
    String,
>)
    ensures
        ({
            let a = keys::AnnouncementView {
                daemon_id,
                sae_id: manager.local_sae_id@,
                key_id: key_id@,
            };
            match r {
                Ok(b) => keys::announcement_fault(a) is None && b@ == keys::announcement_wire(a),
                Err(e) => keys::announcement_fault(a) == Some(e@),
            }
        }),
{
    let a = QkdKeyAnnouncement {
        daemon_id,
        sae_id: manager.local_sae_id().to_owned(),
        key_id: key_id.to_owned(),
    };
    encode_key_announcement(&a)
}

/// The message of a failure.
pub open spec fn error_wire(message: Seq<char>) -> Seq<u8> {
    keys::text_wire(MSG_QKD_KEY_ERROR, keys::clipped(vstd::utf8::encode_utf8(message)))
}

/// The answer to an announcement that was accepted.
pub open spec fn ack_reply(key_id: Seq<char>) -> Seq<u8> {
    match keys::identifier_fault("QKD key_ID"@, key_id, keys::MAX_KEY_ID_LEN as nat) {
        None => keys::text_wire(MSG_QKD_KEY_ACK, vstd::utf8::encode_utf8(key_id)),
        Some(e) => error_wire(e),
    }
}

/// The message that accepts a key, or the failure to write one.
fn ack_or_error(key_id: &str) -> (r: Vec<u8>)
    ensures
        r@ == ack_reply(key_id@),
{
    match encode_key_ack(key_id) {
        Ok(b) => b,
        Err(e) => encode_key_error(e.as_str()),
    }
}

/// What comes of a message about keys.
pub enum ControlStep {
    Ignore,
    /// Answer the sender with this message.
    Reply(Vec<u8>),
    /// The announced key has to be fetched; hand what came of it to
    /// `finish_inbound`.
    Fetch(QkdKeyAnnouncement),
    /// The session with this daemon now has an active key.
    Established { daemon_id: u64, key_id: String },
    /// A failure to report.
    Report(String),
}

/// Decides what to do with a message about keys.
///
/// An announcement of this host's own entity, which multicast loops back, is ignored.
/// One of a key that is known already is accepted; one of another key has it
/// fetched. An acceptance makes the key active. Where a session becomes active, the
/// daemon at the other end is forgotten, so that its next greeting leads to an
/// exchange.
pub fn receive_control(
    known_peers: &mut KnownPeers,
    manager: &mut QkdDaemonManager,
    data: &[u8],
) -> (r: ControlStep)
    requires
        old(manager).wf(),
    ensures
        final(manager).wf(),
        final(manager).local_sae_id == old(manager).local_sae_id,
        data@.len() == 0 || (data@[0] != MSG_QKD_KEY_ANNOUNCE && data@[0] != MSG_QKD_KEY_ACK
            && data@[0] != MSG_QKD_KEY_ERROR) ==> r is Ignore && final(known_peers)@ == old(known_peers)@ && final(manager).store@ == old(manager).store@,
        data@.len() > 0 && data@[0] == MSG_QKD_KEY_ANNOUNCE ==> match keys::announcement_value(
            data@,
        ) {
            Err(e) => (r matches ControlStep::Reply(b) && b@ == error_wire(e)) && final(known_peers)@ == old(known_peers)@ && final(manager).store@ == old(manager).store@,
            Ok(a) => if a.sae_id == old(manager).local_sae_id@ {
                r is Ignore && final(known_peers)@ == old(known_peers)@ && final(manager).store@
                    == old(manager).store@
            } else if manager::known_inbound(
                old(manager).store@,
                a.daemon_id,
                a.sae_id,
                a.key_id,
            ) {
                &&& r matches ControlStep::Reply(b) && b@ == ack_reply(a.key_id)
                &&& final(known_peers)@ == old(known_peers)@.remove(a.daemon_id)
                &&& final(manager).store@ == (if manager::session_with(
                    old(manager).store@,
                    a.daemon_id,
                )->0.active {
                    old(manager).store@
                } else {
                    manager::activated(old(manager).store@, a.daemon_id, a.key_id)
                })
            } else {
                &&& r matches ControlStep::Fetch(f) && f@ == a
                &&& final(known_peers)@ == old(known_peers)@
                &&& final(manager).store@ == old(manager).store@
            },
        },
        data@.len() > 0 && data@[0] == MSG_QKD_KEY_ACK ==> match keys::ack_value(data@) {
            Err(e) => (r matches ControlStep::Report(m) && m@ == "QKD ACK rejected: "@ + e)
                && final(known_peers)@ == old(known_peers)@ && final(manager).store@ == old(manager).store@,
            Ok(key_id) => {
                &&& final(manager).store@ == manager::acknowledged(
                    old(manager).store@,
                    key_id,
                ).0
                &&& match manager::acknowledged(old(manager).store@, key_id).1 {
                    Some(id) => (r matches ControlStep::Established { daemon_id, key_id: k } && k@
                        == key_id && daemon_id == id) && final(known_peers)@ == old(known_peers)@.remove(id),
                    None => r is Ignore && final(known_peers)@ == old(known_peers)@,
                }
            },
        },
        data@.len() > 0 && data@[0] == MSG_QKD_KEY_ERROR ==> final(known_peers)@ == old(known_peers)@ && final(manager).store@ == old(manager).store@ && match keys::ack_value(data@) {
            Err(e) => r matches ControlStep::Report(m) && m@ == e,
            Ok(_) => r is Ignore,
        },
{
    if data.len() == 0 {
        return ControlStep::Ignore;
    }
    let kind: u8 = data[0];
    if kind == MSG_QKD_KEY_ANNOUNCE {
        match decode_key_announcement(data) {
            Err(e) => ControlStep::Reply(encode_key_error(e.as_str())),
            Ok(a) => {
                if text_equal(a.sae_id.as_str(), manager.local_sae_id()) {
                    return ControlStep::Ignore;
                }
                if manager.accept_inbound(a.daemon_id, a.sae_id.as_str(), a.key_id.as_str()) {
                    known_peers.forget(a.daemon_id);
                    ControlStep::Reply(ack_or_error(a.key_id.as_str()))
                } else {
                    ControlStep::Fetch(a)
                }
            },
        }
    } else if kind == MSG_QKD_KEY_ACK {
        match decode_key_ack(data) {
            Ok(key_id) => match manager.activate_outbound_by_key_id(key_id.as_str()) {
                Some(daemon_id) => {
                    known_peers.forget(daemon_id);
                    ControlStep::Established { daemon_id, key_id }
                },
                None => ControlStep::Ignore,
            },
            Err(e) => {
                let mut m = "QKD ACK rejected: ".to_owned();
                m.append(e.as_str());
                ControlStep::Report(m)
            },
        }
    } else if kind == MSG_QKD_KEY_ERROR {
        match decode_key_ack(data) {
            Err(e) => ControlStep::Report(e),
            Ok(_) => ControlStep::Ignore,
        }
    } else {
        ControlStep::Ignore
    }
}

/// The answer to an announcement whose key was fetched, once it is known whether the
/// key was taken up. Where it was, the daemon that announced it is forgotten.
pub fn finish_inbound(
    known_peers: &mut KnownPeers,
    announcement: &QkdKeyAnnouncement,
    installed: Result<(), String>,
) -> (r: Vec<u8>)
    ensures
        match installed {
            Ok(_) => r@ == ack_reply(announcement@.key_id) && final(known_peers)@ == old(known_peers)@.remove(announcement.daemon_id),
            Err(e) => r@ == error_wire(e@) && final(known_peers)@ == old(known_peers)@,
        },
{
    match installed {
        Ok(_) => {
            known_peers.forget(announcement.daemon_id);
            ack_or_error(announcement.key_id.as_str())
        },
        Err(e) => encode_key_error(e.as_str()),
    }
}

/// Whether a request of another daemon may be answered. With keys from a key manager
/// it has to name a daemon with an active session.
pub fn sync_allowed(
    security_mode: SecurityMode,
    manager: Option<&QkdDaemonManager>,
    data: &[u8],
) -> (r: bool)
    requires
        manager is Some ==> manager->0.wf(),
    ensures
        security_mode != SecurityMode::Qkd ==> r,
        security_mode == SecurityMode::Qkd ==> r == (manager is Some && peer_sync::is_request(
            data@,
        ) && data@.len() >= 13 && session_active(
            manager->0.store@,
            crate::bytes::le_value(data@.subrange(5, 13)) as u64,
        )),
{
    if security_mode != SecurityMode::Qkd {
        return true;
    }
    match manager {
        Some(m) => match sync_request_daemon_id(data) {
            Ok(Some(id)) => m.has_active_session(id),
            _ => false,
        },
        None => false,
    }
}

/// A greeting brings news exactly if its sender is not known, or its revision is later
/// than any before, or the domains of this host changed.
pub proof fn law_news_exactly(
    peers: Map<u64, PeerView>,
    id: u64,
    generation: u64,
    domains: Seq<u32>,
)
    ensures
        !peers.contains_key(id) ==> brings_news(peers, id, generation, domains),
        peers.contains_key(id) && generation > peers[id].generation ==> brings_news(
            peers,
            id,
            generation,
            domains,
        ),
        peers.contains_key(id) && domains != peers[id].domains ==> brings_news(
            peers,
            id,
            generation,
            domains,
        ),
        peers.contains_key(id) && generation <= peers[id].generation && domains
            == peers[id].domains ==> !brings_news(peers, id, generation, domains),
{
}

/// After a greeting its sender is remembered with its present address, the time and the
/// latest of the revisions that were ever seen.
pub proof fn law_greeting_is_remembered(
    peers: Map<u64, PeerView>,
    id: u64,
    addr: PeerAddr,
    generation: u64,
    domains: Seq<u32>,
    now: u64,
)
    ensures
        ({
            let p = after_hello(peers, id, addr, generation, domains, now);
            &&& p.addr == addr
            &&& p.seen == now
            &&& p.domains == domains
            &&& p.generation >= generation
            &&& peers.contains_key(id) ==> p.generation >= peers[id].generation
            &&& p.generation == generation || (peers.contains_key(id) && p.generation
                == peers[id].generation)
        }),
{
}

/// The shared domains are those of the peer that this host has too, in the peer's order.
pub proof fn law_shared_exactly(theirs: Seq<u32>, more: Seq<u32>, ours: Seq<u32>, d: u32)
    ensures
        shared(theirs, ours).contains(d) <==> theirs.contains(d) && ours.contains(d),
        shared(theirs + more, ours) == shared(theirs, ours) + shared(more, ours),
    decreases theirs.len() + more.len(), more.len(),
{
    if theirs.len() > 0 {
        let init = theirs.drop_last();
        let rest = shared(init, ours);
        let all = shared(theirs, ours);
        law_shared_exactly(init, Seq::empty(), ours, d);
        if rest.contains(d) {
            let k = choose|k: int| 0 <= k < rest.len() && rest[k] == d;
            assert(all[k] == d);
        }
        if init.contains(d) {
            let k = choose|k: int| 0 <= k < init.len() && init[k] == d;
            assert(theirs[k] == d);
        }
        if d == theirs.last() {
            assert(theirs[theirs.len() - 1] == d);
            if ours.contains(d) {
                assert(all[rest.len() as int] == d);
            }
        } else if theirs.contains(d) {
            let k = choose|k: int| 0 <= k < theirs.len() && theirs[k] == d;
            assert(init[k] == d);
        }
        if all.contains(d) && !rest.contains(d) {
            let k = choose|k: int| 0 <= k < all.len() && all[k] == d;
            if k < rest.len() {
                assert(rest[k] == d);
            }
        }
    }
    if more.len() == 0 {
        assert(theirs + more =~= theirs);
        assert(shared(theirs, ours) + shared(more, ours) =~= shared(theirs, ours));
    } else {
        law_shared_exactly(theirs, more.drop_last(), ours, d);
        assert((theirs + more).drop_last() =~= theirs + more.drop_last());
        assert(shared(theirs + more, ours) =~= shared(theirs, ours) + shared(more, ours));
    }
}

/// A daemon takes connections at the address from which its greeting came, on the port
/// that the greeting names.
pub proof fn law_peer_is_where_its_greeting_came_from(src: PeerAddr, h: HelloView)
    ensures
        peer_addr(src, h).ip == src.ip,
        peer_addr(src, h).v6 == src.v6,
        peer_addr(src, h).port == h.quic_port,
        peer_addr(src, h).flow == 0 && peer_addr(src, h).scope == 0,
{
}

/// Numbers in order ascend and are the numbers that were there.
pub proof fn law_in_order_exactly(s: Seq<u32>)
    ensures
        ascending(in_order(s)),
        in_order(s).to_multiset() == s.to_multiset(),
    decreases s.len(),
{
    if s.len() > 0 {
        let init = s.drop_last();
        law_in_order_exactly(init);
        lemma_inserted_ascends(in_order(init), s.last());
        vstd::seq_lib::to_multiset_build(init, s.last());
        assert(init.push(s.last()) =~= s);
    }
}

proof fn lemma_inserted_ascends(s: Seq<u32>, n: u32)
    requires
        ascending(s),
    ensures
        ascending(inserted(s, n)),
        inserted(s, n).to_multiset() == s.to_multiset().insert(n),
        inserted(s, n).len() == s.len() + 1,
        s.len() > 0 ==> inserted(s, n).last() == (if s.last() <= n {
            n
        } else {
            s.last()
        }),
        s.len() == 0 ==> inserted(s, n).last() == n,
    decreases s.len(),
{
    if s.len() == 0 || s.last() <= n {
        vstd::seq_lib::to_multiset_build(s, n);
        let t = s.push(n);
        assert forall|i: int, j: int| 0 <= i < j < t.len() implies t[i] <= t[j] by {
            if j == s.len() {
                if i < s.len() - 1 {
                    assert(s[i] <= s[s.len() - 1]);
                }
            }
        }
    } else {
        let init = s.drop_last();
        assert(ascending(init));
        lemma_inserted_ascends(init, n);
        let p = inserted(init, n);
        let t = p.push(s.last());
        assert forall|i: int, j: int| 0 <= i < j < t.len() implies t[i] <= t[j] by {
            if j == p.len() {
                if i < p.len() - 1 {
                    assert(p[i] <= p[p.len() - 1]);
                }
                if init.len() > 0 {
                    assert(s[init.len() - 1] <= s[s.len() - 1]);
                }
            }
        }
        vstd::seq_lib::to_multiset_build(p, s.last());
        vstd::seq_lib::to_multiset_build(init, s.last());
        assert(init.push(s.last()) =~= s);
        assert(t.to_multiset() =~= s.to_multiset().insert(n));
    }
}

/// A session waits for its key exactly if keys are delivered and no readable key of that
/// very daemon is active.
pub proof fn law_key_is_missing_exactly(m: Option<&QkdDaemonManager>, id: u64)
    requires
        m matches Some(x) ==> store::local_text(x.store@) is Some,
    ensures
        key_missing(m, id) <==> (m matches Some(x) && forall|i: int|
            0 <= i < x.store@.entries.len() ==> !store::of_daemon(
                #[trigger] x.store@.entries[i],
                id,
                true,
            )),
{
    if let Some(x) = m {
        let es = x.store@.entries;
        let local = store::local_text(x.store@);
        store::law_session_of_a_daemon_exactly(local, es, id, true);
        let q = QueryView::Daemon { id, require_active: true };
        if let Some(k) = store::found(q, local, es) {
            let i = choose|i: int|
                0 <= i < es.len() && store::of_daemon(#[trigger] es[i], id, true) && store::shows(
                    local,
                    es[i],
                    k,
                ) && (forall|j: int| 0 <= j < i ==> !store::of_daemon(#[trigger] es[j], id, true));
            assert(store::of_daemon(es[i], id, true));
        }
    }
}

/// What answers an announcement is read as it is meant: the acceptance of a key names that
/// key, and the message of a failure never accepts one.
pub proof fn law_answers_are_understood(key_id: Seq<char>, message: Seq<char>)
    ensures
        keys::identifier_ok(key_id, 192) ==> keys::ack_value(ack_reply(key_id)) == Ok::<
            _,
            Seq<char>,
        >(key_id),
        !keys::identifier_ok(key_id, 192) ==> keys::ack_value(ack_reply(key_id)) is Err,
        keys::ack_value(error_wire(message)) is Err,
{
    keys::law_identifier_is_accepted_exactly("QKD key_ID"@, key_id, 192);
    keys::law_failure_is_reported(message);
    if keys::identifier_ok(key_id, 192) {
        keys::law_ack_round_trip(key_id);
    } else {
        let e = keys::identifier_fault("QKD key_ID"@, key_id, 192)->0;
        keys::law_failure_is_reported(e);
    }
}

} // verus!
