//! The transport between hosts: where peers are, what is sent to them, and which of
//! their requests are still to be answered.
#[allow(unused_imports)]
use crate::bytes;
use crate::bytes::{append_slice, push_be, read_be};
#[allow(unused_imports)]
use crate::qkd::config;
#[allow(unused_imports)]
use crate::qkd::store;
use crate::qkd::store::{QkdKeyStore, QkdSessionKey, QueryView, SessionKeyView, StoreView};
use crate::security_mode::SecurityMode;
#[allow(unused_imports)]
use crate::text;
use crate::text::{parse_unsigned, push_decimal, text_equal, trim_text, utf8_text};
use std::collections::HashMap;
use vstd::prelude::*;
use vstd::slice::slice_subrange;
#[allow(unused_imports)]
use vstd::utf8::*;

verus! {

/// The number of a peer.
pub type PeerId = u64;

/// How many messages are compressed and sealed ahead of the one that is sent.
pub const TOPIC_PREPARE_DEPTH: usize = 4;

/// How many messages a topic's receiver holds.
pub const RECV_CHANNEL_CAPACITY: usize = 128;

/// One mebibyte.
pub const MEBIBYTE: u64 = 1_048_576;

/// The prefix of the identity under which a session's key is known in a handshake.
pub const QKD_IDENTITY_PREFIX: &'static str = "AXON-QKD-TLS13-v1:";

/// The salt with which a session's key is turned into a handshake's secret.
pub const QKD_PSK_SALT: &'static str = "AXON-QKD-TLS13-EXTERNAL-PSK-v1";

/// The identity under which a session's key is known in a handshake.
pub open spec fn identity_of(key_id: Seq<char>) -> Seq<u8> {
    encode_utf8(QKD_IDENTITY_PREFIX@) + encode_utf8(key_id)
}

/// The identity under which a session's key is known in a handshake.
pub fn qkd_identity(key_id: &str) -> (r: Vec<u8>)
    ensures
        r@ == identity_of(key_id@),
{
    let mut identity: Vec<u8> = Vec::new();
    append_slice(&mut identity, QKD_IDENTITY_PREFIX.as_bytes());
    append_slice(&mut identity, key_id.as_bytes());
    proof {
        assert(identity@ =~= identity_of(key_id@));
    }
    identity
}

/// The key that an identity is about, where it has the prefix and the rest is text.
pub open spec fn key_of_identity(identity: Seq<u8>) -> Option<Seq<char>> {
    let p = encode_utf8(QKD_IDENTITY_PREFIX@);
    if identity.len() < p.len() || identity.subrange(0, p.len() as int) != p {
        None
    } else {
        let rest = identity.subrange(p.len() as int, identity.len() as int);
        if valid_utf8(rest) {
            Some(decode_utf8(rest))
        } else {
            None
        }
    }
}

/// The key that an identity is about.
pub fn qkd_identity_key_id(identity: &[u8]) -> (r: Option<&str>)
    ensures
        text::opt_str(r) == key_of_identity(identity@),
{
    let p = QKD_IDENTITY_PREFIX.as_bytes();
    if identity.len() < p.len() {
        return None;
    }
    if !bytes::bytes_equal(vstd::slice::slice_subrange(identity, 0, p.len()), p) {
        return None;
    }
    utf8_text(vstd::slice::slice_subrange(identity, p.len(), identity.len()))
}

/// The identity of a key names that key.
pub proof fn law_identity_round_trip(key_id: Seq<char>)
    ensures
        key_of_identity(identity_of(key_id)) == Some(key_id),
{
    broadcast use {encode_utf8_valid_utf8, encode_utf8_decode_utf8};

    let p = encode_utf8(QKD_IDENTITY_PREFIX@);
    let id = identity_of(key_id);
    assert(id.subrange(0, p.len() as int) =~= p);
    assert(id.subrange(p.len() as int, id.len() as int) =~= encode_utf8(key_id));
}

/// The 32 bytes that HKDF over SHA-256 makes of a key, under a salt and some
/// information.
pub uninterp spec fn hkdf_sha256(salt: Seq<u8>, key: Seq<u8>, info: Seq<u8>) -> Seq<u8>;

/// `ring::hkdf`, extraction and expansion with SHA-256: 32 bytes made of a key. Both
/// fail only for outputs of another length.
#[verifier::external_body]
fn derive_secret(salt: &[u8], key: &[u8], info: &[u8]) -> (r: Option<Vec<u8>>)
    ensures
        r is Some,
        r->0@ == hkdf_sha256(salt@, key@, info@),
        r->0@.len() == 32,
{
    let prk = ring::hkdf::Salt::new(ring::hkdf::HKDF_SHA256, salt).extract(key);
    let info = [info];
    let mut secret = vec![0u8; 32];
    prk.expand(&info, ring::hkdf::HKDF_SHA256).ok()?.fill(&mut secret).ok()?;
    Some(secret)
}

/// What a handshake needs of a session's key: under which identity it is known, and
/// the secret made of it.
pub struct ExternalPsk {
    pub identity: Vec<u8>,
    pub secret: Vec<u8>,
}

/// What a handshake needs of a session's key.
#[verifier::ext_equal]
pub struct PskView {
    pub identity: Seq<u8>,
    pub secret: Seq<u8>,
}

impl View for ExternalPsk {
    type V = PskView;

    open spec fn view(&self) -> PskView {
        PskView { identity: self.identity@, secret: self.secret@ }
    }
}

/// What a handshake needs of a session's key.
pub open spec fn psk_of(k: SessionKeyView) -> PskView {
    PskView {
        identity: identity_of(k.key_id),
        secret: hkdf_sha256(encode_utf8(QKD_PSK_SALT@), k.key, encode_utf8(k.key_id)),
    }
}

/// What a handshake needs of a session's key.
pub fn qkd_external_psk(session: &QkdSessionKey) -> (r: Result<ExternalPsk, String>)
    ensures
        r matches Ok(p) && p@ == psk_of(session@),
{
    match derive_secret(
        QKD_PSK_SALT.as_bytes(),
        session.key.as_slice(),
        session.key_id.as_str().as_bytes(),
    ) {
        Some(secret) => Ok(
            ExternalPsk { identity: qkd_identity(session.key_id.as_str()), secret },
        ),
        None => Err("QKD TLS HKDF expansion failed".to_owned()),
    }
}

/// What a handshake needs of the key that an identity is about, where there is one.
pub open spec fn psk_for_identity(s: StoreView, identity: Seq<u8>) -> Option<PskView> {
    match key_of_identity(identity) {
        None => None,
        Some(key_id) => match store::found(
            QueryView::Key { key_id, require_active: false, remote_sae_id: None },
            store::local_text(s),
            s.entries,
        ) {
            None => None,
            Some(k) => Some(psk_of(k)),
        },
    }
}

/// Answers a handshake: what it needs of the key that an identity is about.
pub fn resolve_psk(store: &QkdKeyStore, identity: &[u8]) -> (r: Option<ExternalPsk>)
    requires
        store.wf(),
    ensures
        match r {
            Some(p) => psk_for_identity(store@, identity@) == Some(p@),
            None => psk_for_identity(store@, identity@) is None,
        },
{
    let key_id = qkd_identity_key_id(identity)?;
    let session = store.find_by_key_id_for_tls(key_id)?;
    match qkd_external_psk(&session) {
        Ok(p) => Some(p),
        Err(_) => None,
    }
}

/// What a handshake with a daemon needs: a key in the mode with keys, else nothing.
pub open spec fn handshake_key(mode: SecurityMode, daemon: Option<u64>, s: StoreView) -> Result<
    Option<PskView>,
    Seq<char>,
> {
    if mode == SecurityMode::Classic {
        Ok(None)
    } else {
        match daemon {
            None => Err("QKD connection has no remote daemon ID"@),
            Some(id) => match store::found(
                QueryView::Daemon { id, require_active: false },
                store::local_text(s),
                s.entries,
            ) {
                None => Err("no QKD key for daemon "@ + text::decimal(id as nat)),
                Some(k) => Ok(Some(psk_of(k))),
            },
        }
    }
}

/// What a handshake with a daemon needs.
pub fn psk_for_daemon(mode: SecurityMode, remote_daemon_id: Option<u64>, store: &QkdKeyStore) -> (r:
    Result<Option<ExternalPsk>, String>)
    requires
        store.wf(),
    ensures
        match (r, handshake_key(mode, remote_daemon_id, store@)) {
            (Ok(Some(p)), Ok(Some(v))) => p@ == v,
            (Ok(None), Ok(None)) => true,
            (Err(e), Err(m)) => e@ == m,
            _ => false,
        },
{
    match mode {
        SecurityMode::Classic => Ok(None),
        SecurityMode::Qkd => match remote_daemon_id {
            None => Err("QKD connection has no remote daemon ID".to_owned()),
            Some(id) => match store.find_for_daemon(id, false) {
                None => {
                    let mut e = "no QKD key for daemon ".to_owned();
                    push_decimal(&mut e, id);
                    Err(e)
                },
                Some(session) => match qkd_external_psk(&session) {
                    Ok(p) => Ok(Some(p)),
                    Err(e) => Err(e),
                },
            },
        },
    }
}

/// The number that the value of a variable spells, or `default`.
pub open spec fn number_or(value: Option<Seq<char>>, max: nat, default: int) -> int {
    match value {
        Some(v) => match text::unsigned_value(v, max) {
            Some(n) => n as int,
            None => default,
        },
        None => default,
    }
}

fn parsed_or(value: Option<&str>, max: u64, default: u64) -> (r: u64)
    requires
        default <= max,
    ensures
        r == number_or(text::opt_str(value), max as nat, default as int),
        r <= max,
{
    match value {
        Some(v) => match parse_unsigned(v, max) {
            Some(n) => n,
            None => default,
        },
        None => default,
    }
}

/// The window of a stream, as the variable for it says: at least a mebibyte, and 64 of
/// them where it says nothing or more than the protocol can say.
pub fn quic_stream_window(value: Option<&str>) -> (r: u64)
    ensures
        ({
            let n = number_or(text::opt_str(value), u64::MAX as nat, 64 * MEBIBYTE);
            r == (if n < MEBIBYTE {
                MEBIBYTE as int
            } else if n >= 0x4000_0000_0000_0000 {
                64 * MEBIBYTE
            } else {
                n
            })
        }),
        1_048_576 <= r < 0x4000_0000_0000_0000,
        value is None ==> r == 67_108_864,
{
    let n: u64 = parsed_or(value, u64::MAX, 64 * MEBIBYTE);
    if n < MEBIBYTE {
        MEBIBYTE
    } else if n >= 0x4000_0000_0000_0000 {
        64 * MEBIBYTE
    } else {
        n
    }
}

/// The window of a connection's sender, as the variable for it says: at least a
/// mebibyte, and sixteen of them where it says nothing. There has to be room for one
/// large message and the small ones beside it.
pub fn quic_send_window(value: Option<&str>) -> (r: u64)
    ensures
        ({
            let n = number_or(text::opt_str(value), u64::MAX as nat, 16 * MEBIBYTE);
            r == (if n < MEBIBYTE {
                MEBIBYTE as int
            } else {
                n
            })
        }),
        r >= 1_048_576,
        value is None ==> r == 16_777_216,
{
    let n: u64 = parsed_or(value, u64::MAX, 16 * MEBIBYTE);
    if n < MEBIBYTE {
        MEBIBYTE
    } else {
        n
    }
}

/// The largest datagram, as the variable for it says: between 1200 and 65527 bytes, and
/// 1200 where it says nothing. A datagram that has to be split is lost with any part of
/// it.
pub fn quic_max_udp_payload_size(value: Option<&str>) -> (r: u16)
    ensures
        r == config::clamped(
            number_or(text::opt_str(value), u16::MAX as nat, 1200),
            1200,
            65527,
        ),
{
    let n: u64 = parsed_or(value, u16::MAX as u64, 1200);
    if n < 1200 {
        1200
    } else if n > 65527 {
        65527
    } else {
        n as u16
    }
}

/// How often keys change.
#[derive(Clone, Copy, Debug, PartialEq, Eq, Structural)]
pub enum QkdKeyMode {
    /// With each session.
    Session,
    /// With every ten messages.
    Messages10,
}

/// How often keys change, as a text says.
pub open spec fn key_mode_of(value: Seq<char>) -> Result<QkdKeyMode, Seq<char>> {
    let v = config::lowered(text::trimmed(value));
    if v == "session"@ {
        Ok(QkdKeyMode::Session)
    } else if v == "messages10"@ {
        Ok(QkdKeyMode::Messages10)
    } else {
        Err("invalid AXON_QKD_KEY_MODE '"@ + v + "'; expected session or messages10"@)
    }
}

impl QkdKeyMode {
    /// How often keys change, as a text says.
    pub fn parse(value: &str) -> (r: Result<QkdKeyMode, String>)
        ensures
            match r {
                Ok(m) => key_mode_of(value@) == Ok::<_, Seq<char>>(m),
                Err(e) => key_mode_of(value@) == Err::<QkdKeyMode, _>(e@),
            },
    {
        let t = trim_text(value);
        let v = crate::qkd::config::lower_text(t.as_str());
        if text_equal(v.as_str(), "session") {
            Ok(QkdKeyMode::Session)
        } else if text_equal(v.as_str(), "messages10") {
            Ok(QkdKeyMode::Messages10)
        } else {
            let mut e = "invalid AXON_QKD_KEY_MODE '".to_owned();
            e.append(v.as_str());
            e.append("'; expected session or messages10");
            Err(e)
        }
    }

    /// How often keys change, as the variable for it says: with the messages, where it
    /// says nothing.
    pub fn from_setting(value: Option<&str>) -> (r: Result<QkdKeyMode, String>)
        ensures
            ({
                let m = match text::opt_str(value) {
                    Some(v) => key_mode_of(v),
                    None => key_mode_of("messages10"@),
                };
                match r {
                    Ok(k) => m == Ok::<_, Seq<char>>(k),
                    Err(e) => m == Err::<QkdKeyMode, _>(e@),
                }
            }),
    {
        match value {
            Some(v) => Self::parse(v),
            None => Self::parse("messages10"),
        }
    }
}

/// Whether messages are sealed with keys of their own.
pub fn seals_messages(mode: SecurityMode, key_mode: QkdKeyMode) -> (r: bool)
    ensures
        r == (mode == SecurityMode::Qkd && key_mode == QkdKeyMode::Messages10),
{
    match (mode, key_mode) {
        (SecurityMode::Qkd, QkdKeyMode::Messages10) => true,
        _ => false,
    }
}

/// The address of a peer.
#[derive(Clone, Copy, Debug, PartialEq, Eq, Structural)]
pub struct PeerAddr {
    pub v6: bool,
    pub ip: u128,
    pub port: u16,
    /// The flow of an IPv6 address; zero for others.
    pub flow: u32,
    /// The scope of an IPv6 address; zero for others.
    pub scope: u32,
}

impl PeerAddr {
    /// Whether a peer can be reached there: neither the port nor the address is zero.
    pub open spec fn usable(self) -> bool {
        self.port != 0 && self.ip != 0
    }
}

fn addr_usable(a: &PeerAddr) -> (r: bool)
    ensures
        r == a.usable(),
{
    a.port != 0 && a.ip != 0
}

/// The addresses with one more, unless it is there or cannot be used.
pub open spec fn with_addr(s: Seq<PeerAddr>, a: PeerAddr) -> Seq<PeerAddr> {
    if !a.usable() || s.contains(a) {
        s
    } else {
        s.push(a)
    }
}

/// The addresses with some more, each once.
pub open spec fn with_addrs(s: Seq<PeerAddr>, more: Seq<PeerAddr>) -> Seq<PeerAddr>
    decreases more.len(),
{
    if more.len() == 0 {
        s
    } else {
        with_addr(with_addrs(s, more.drop_last()), more.last())
    }
}

/// Adds an address, unless it is there or cannot be used.
fn add_addr(list: &mut Vec<PeerAddr>, a: PeerAddr)
    ensures
        final(list)@ == with_addr(old(list)@, a),
{
    if !addr_usable(&a) {
        return ;
    }
    let mut i: usize = 0;
    while i < list.len()
        invariant
            i <= list@.len(),
            *list == *old(list),
            forall|k: int| 0 <= k < i ==> (#[trigger] list@[k]) != a,
        decreases list.len() - i,
    {
        if list[i] == a {
            return ;
        }
        i += 1;
    }
    list.push(a);
}

/// Adds addresses, each once.
fn add_addrs(list: &mut Vec<PeerAddr>, more: &Vec<PeerAddr>)
    ensures
        final(list)@ == with_addrs(old(list)@, more@),
{
    let mut i: usize = 0;
    proof {
        assert(more@.subrange(0, 0) =~= Seq::empty());
    }
    while i < more.len()
        invariant
            i <= more@.len(),
            list@ == with_addrs(old(list)@, more@.subrange(0, i as int)),
        decreases more.len() - i,
    {
        proof {
            assert(more@.subrange(0, i + 1).drop_last() =~= more@.subrange(0, i as int));
        }
        add_addr(list, more[i]);
        i += 1;
    }
    proof {
        assert(more@.subrange(0, i as int) =~= more@);
    }
}

/// Where peers are, and to which daemon each belongs.
pub struct PeerBook {
    pub addrs: HashMap<PeerId, Vec<PeerAddr>>,
    pub daemons: HashMap<PeerId, u64>,
}

/// The addresses that are known of a peer.
pub open spec fn known(addrs: Map<PeerId, Vec<PeerAddr>>, peer: PeerId) -> Seq<PeerAddr> {
    if addrs.contains_key(peer) {
        addrs[peer]@
    } else {
        Seq::empty()
    }
}

/// Where a peer is looked for: at the preferred address first, then at the known ones.
pub open spec fn candidates(
    addrs: Map<PeerId, Vec<PeerAddr>>,
    peer: PeerId,
    preferred: Option<PeerAddr>,
) -> Seq<PeerAddr> {
    let first = match preferred {
        Some(a) => with_addr(Seq::empty(), a),
        None => Seq::empty(),
    };
    with_addrs(first, known(addrs, peer))
}

impl PeerBook {
    /// An empty book.
    pub fn new() -> (r: PeerBook)
        ensures
            r.addrs@ == Map::<PeerId, Vec<PeerAddr>>::empty(),
            r.daemons@ == Map::<PeerId, u64>::empty(),
    {
        broadcast use vstd::std_specs::hash::group_hash_axioms;

        PeerBook { addrs: HashMap::new(), daemons: HashMap::new() }
    }

    /// Notes where a peer is, in place of what was known: the addresses that can be
    /// used, each once. Where there is none, what was known stays.
    pub fn set_peer_addrs(&mut self, peer_id: PeerId, addrs: &Vec<PeerAddr>)
        ensures
            final(self).daemons == old(self).daemons,
            ({
                let usable = with_addrs(Seq::empty(), addrs@);
                if usable.len() == 0 {
                    final(self).addrs@ == old(self).addrs@
                } else {
                    &&& final(self).addrs@.dom() == old(self).addrs@.dom().insert(peer_id)
                    &&& final(self).addrs@[peer_id]@ == usable
                    &&& forall|p: PeerId|
                        p != peer_id && #[trigger] old(self).addrs@.contains_key(p)
                            ==> final(self).addrs@[p] == old(self).addrs@[p]
                }
            }),
    {
        broadcast use vstd::std_specs::hash::group_hash_axioms;

        let mut unique: Vec<PeerAddr> = Vec::new();
        add_addrs(&mut unique, addrs);
        if unique.len() > 0 {
            self.addrs.insert(peer_id, unique);
        }
    }

    /// Notes the daemon of a peer; zero is none.
    pub fn set_peer_daemon(&mut self, peer_id: PeerId, daemon_id: u64)
        ensures
            final(self).addrs == old(self).addrs,
            final(self).daemons@ == (if daemon_id != 0 {
                old(self).daemons@.insert(peer_id, daemon_id)
            } else {
                old(self).daemons@
            }),
    {
        broadcast use vstd::std_specs::hash::group_hash_axioms;

        if daemon_id != 0 {
            self.daemons.insert(peer_id, daemon_id);
        }
    }

    /// The addresses that are known of a peer.
    fn known_addrs(&self, peer_id: PeerId) -> (r: Vec<PeerAddr>)
        ensures
            r@ == known(self.addrs@, peer_id),
    {
        broadcast use vstd::std_specs::hash::group_hash_axioms;

        match self.addrs.get(&peer_id) {
            Some(v) => {
                let mut r: Vec<PeerAddr> = Vec::new();
                let mut i: usize = 0;
                while i < v.len()
                    invariant
                        i <= v@.len(),
                        r@ == v@.subrange(0, i as int),
                    decreases v.len() - i,
                {
                    r.push(v[i]);
                    i += 1;
                    proof {
                        assert(r@ =~= v@.subrange(0, i as int));
                    }
                }
                proof {
                    assert(r@ =~= v@);
                }
                r
            },
            None => Vec::new(),
        }
    }

    /// Notes one more address of a peer, unless it is known or cannot be used.
    pub fn remember_peer_addr(&mut self, peer_id: PeerId, addr: PeerAddr)
        ensures
            final(self).daemons == old(self).daemons,
            if !addr.usable() {
                final(self).addrs@ == old(self).addrs@
            } else {
                &&& final(self).addrs@.dom() == old(self).addrs@.dom().insert(peer_id)
                &&& final(self).addrs@[peer_id]@ == with_addr(
                    known(old(self).addrs@, peer_id),
                    addr,
                )
                &&& forall|p: PeerId|
                    p != peer_id && #[trigger] old(self).addrs@.contains_key(p)
                        ==> final(self).addrs@[p] == old(self).addrs@[p]
            },
    {
        broadcast use vstd::std_specs::hash::group_hash_axioms;

        if !addr_usable(&addr) {
            return ;
        }
        let mut list = self.known_addrs(peer_id);
        add_addr(&mut list, addr);
        self.addrs.insert(peer_id, list);
    }

    /// Where a peer is looked for.
    pub fn candidate_addrs(&self, peer_id: PeerId, preferred: Option<PeerAddr>) -> (r: Vec<PeerAddr>)
        ensures
            r@ == candidates(self.addrs@, peer_id, preferred),
    {
        let mut list: Vec<PeerAddr> = Vec::new();
        if let Some(a) = preferred {
            add_addr(&mut list, a);
        }
        let more = self.known_addrs(peer_id);
        add_addrs(&mut list, &more);
        list
    }
}

proof fn lemma_with_addrs(s: Seq<PeerAddr>, more: Seq<PeerAddr>)
    requires
        s.no_duplicates(),
        forall|i: int| 0 <= i < s.len() ==> (#[trigger] s[i]).usable(),
    ensures
        with_addrs(s, more).no_duplicates(),
        forall|i: int| 0 <= i < with_addrs(s, more).len() ==> (#[trigger] with_addrs(s, more)[i]).usable(),
        s.len() > 0 ==> with_addrs(s, more).len() > 0 && with_addrs(s, more)[0] == s[0],
    decreases more.len(),
{
    if more.len() > 0 {
        lemma_with_addrs(s, more.drop_last());
    }
}

/// A peer is looked for at each place once, never where it cannot be reached, and
/// first at the preferred one.
pub proof fn law_candidates_are_usable_and_distinct(
    addrs: Map<PeerId, Vec<PeerAddr>>,
    peer: PeerId,
    preferred: Option<PeerAddr>,
)
    ensures
        candidates(addrs, peer, preferred).no_duplicates(),
        forall|i: int|
            0 <= i < candidates(addrs, peer, preferred).len() ==> (#[trigger] candidates(
                addrs,
                peer,
                preferred,
            )[i]).usable(),
        preferred matches Some(a) ==> (a.usable() ==> candidates(addrs, peer, preferred).len() > 0
            && candidates(addrs, peer, preferred)[0] == a),
{
    let first = match preferred {
        Some(a) => with_addr(Seq::empty(), a),
        None => Seq::empty(),
    };
    lemma_with_addrs(first, known(addrs, peer));
}

/// A message with its length in front.
pub open spec fn framed(wire: Seq<u8>) -> Seq<u8> {
    bytes::be_bytes(wire.len(), 4) + wire
}

/// A message with its length in front.
pub fn frame_wire(wire: &[u8]) -> (r: Vec<u8>)
    ensures
        r@ == framed(wire@),
{
    let mut out: Vec<u8> = Vec::new();
    push_be(&mut out, wire.len() as u64, 4);
    append_slice(&mut out, wire);
    proof {
        assert(out@ =~= framed(wire@));
    }
    out
}

/// A message of a topic: the topic, then the message with its length in front.
pub fn frame_topic(topic_hash: u64, wire: &[u8]) -> (r: Vec<u8>)
    ensures
        r@ == bytes::be_bytes(topic_hash as nat, 8) + framed(wire@),
{
    let mut out: Vec<u8> = Vec::new();
    push_be(&mut out, topic_hash, 8);
    push_be(&mut out, wire.len() as u64, 4);
    append_slice(&mut out, wire);
    proof {
        assert(out@ =~= bytes::be_bytes(topic_hash as nat, 8) + framed(wire@));
    }
    out
}

/// The message that stands, with its length in front, at the start of `data`, where
/// all of it has come.
pub open spec fn unframed(data: Seq<u8>) -> Option<Seq<u8>> {
    if data.len() < 4 || data.len() - 4 < bytes::be_value(data.subrange(0, 4)) {
        None
    } else {
        Some(data.subrange(4, 4 + bytes::be_value(data.subrange(0, 4)) as int))
    }
}

/// Finds the message at the start of what has come over a stream, where all of it
/// has.
pub fn unframe_wire(data: &[u8]) -> (r: Option<&[u8]>)
    ensures
        match r {
            Some(wire) => unframed(data@) == Some(wire@),
            None => unframed(data@) is None,
        },
{
    if data.len() < 4 {
        return None;
    }
    let len: u64 = read_be(data, 0, 4);
    proof {
        bytes::lemma_be_value_bound(data@.subrange(0, 4));
        bytes::lemma_byte_range_values();
    }
    if len > (data.len() - 4) as u64 {
        return None;
    }
    Some(slice_subrange(data, 4, 4 + len as usize))
}

/// The topic and the message at the start of `data`, where all of it has come.
pub open spec fn topic_unframed(data: Seq<u8>) -> Option<(u64, Seq<u8>)> {
    if data.len() < 8 {
        None
    } else {
        match unframed(data.subrange(8, data.len() as int)) {
            Some(wire) => Some((bytes::be_value(data.subrange(0, 8)) as u64, wire)),
            None => None,
        }
    }
}

/// Finds the topic and the message at the start of what has come over a stream, where
/// all of it has.
pub fn unframe_topic(data: &[u8]) -> (r: Option<(u64, &[u8])>)
    ensures
        match r {
            Some(m) => topic_unframed(data@) == Some((m.0, m.1@)),
            None => topic_unframed(data@) is None,
        },
{
    if data.len() < 8 {
        return None;
    }
    let topic_hash: u64 = read_be(data, 0, 8);
    match unframe_wire(slice_subrange(data, 8, data.len())) {
        Some(wire) => Some((topic_hash, wire)),
        None => None,
    }
}

/// A message that was framed is found again behind its topic, whatever follows it.
pub proof fn law_framed_message_is_found(topic_hash: u64, wire: Seq<u8>, rest: Seq<u8>)
    requires
        wire.len() <= u32::MAX,
    ensures
        unframed(framed(wire) + rest) == Some(wire),
        topic_unframed(bytes::be_bytes(topic_hash as nat, 8) + framed(wire) + rest) == Some(
            (topic_hash, wire),
        ),
{
    bytes::lemma_byte_range_values();
    bytes::lemma_be_round_trip(wire.len(), 4);
    bytes::lemma_be_round_trip(topic_hash as nat, 8);
    bytes::lemma_be_bytes_len(wire.len(), 4);
    bytes::lemma_be_bytes_len(topic_hash as nat, 8);
    let f = framed(wire) + rest;
    assert(f.subrange(0, 4) =~= bytes::be_bytes(wire.len(), 4));
    assert(f.subrange(4, 4 + wire.len() as int) =~= wire);
    let t = bytes::be_bytes(topic_hash as nat, 8) + framed(wire) + rest;
    assert(t.subrange(0, 8) =~= bytes::be_bytes(topic_hash as nat, 8));
    assert(t.subrange(8, t.len() as int) =~= f);
}

/// A request of a remote client that waits for its answer.
#[derive(Clone, Copy)]
pub struct PendingServiceResponse {
    /// The client; all zero where it is not known.
    pub client_gid: [u8; 16],
    /// The request's number; zero where it is not known.
    pub request_sequence: i64,
    /// The stream on which the answer goes back.
    pub stream: u64,
    /// Whether the stream is gone.
    pub closed: bool,
}

/// The requests whose streams are still there.
pub open spec fn open_ones(s: Seq<PendingServiceResponse>) -> Seq<PendingServiceResponse>
    decreases s.len(),
{
    if s.len() == 0 {
        Seq::empty()
    } else if s.last().closed {
        open_ones(s.drop_last())
    } else {
        open_ones(s.drop_last()).push(s.last())
    }
}

/// Whether an answer is for a given client.
pub open spec fn addressed(gid: Seq<u8>) -> bool {
    exists|i: int| 0 <= i < gid.len() && (#[trigger] gid[i]) != 0
}

/// Whether a request is the one that an answer is for.
pub open spec fn answers(p: PendingServiceResponse, gid: Seq<u8>, sequence: i64) -> bool {
    p.client_gid@ == gid && p.request_sequence == sequence
}

/// The first request that an answer is for, from `from` on.
pub open spec fn answered_from(
    s: Seq<PendingServiceResponse>,
    gid: Seq<u8>,
    sequence: i64,
    from: int,
) -> Option<int>
    decreases s.len() - from,
{
    if from < 0 || from >= s.len() {
        None
    } else if answers(s[from], gid, sequence) {
        Some(from)
    } else {
        answered_from(s, gid, sequence, from + 1)
    }
}

/// The request that an answer goes to: that of its client and number. An answer that
/// names no client goes to the oldest; one that does never goes to another's request.
pub open spec fn answered(s: Seq<PendingServiceResponse>, gid: Seq<u8>, sequence: i64) -> Option<
    int,
> {
    if addressed(gid) {
        answered_from(s, gid, sequence, 0)
    } else if s.len() > 0 {
        Some(0)
    } else {
        None
    }
}

fn gid_addressed(gid: &[u8; 16]) -> (r: bool)
    ensures
        r == addressed(gid@),
{
    let mut i: usize = 0;
    while i < 16
        invariant
            i <= 16,
            forall|k: int| 0 <= k < i ==> (#[trigger] gid@[k]) == 0,
        decreases 16 - i,
    {
        if gid[i] != 0 {
            proof {
                assert(gid@[i as int] != 0);
            }
            return true;
        }
        i += 1;
    }
    false
}

/// Finds the stream on which an answer goes back, and drops its request. Requests
/// whose streams are gone are dropped first.
pub fn try_complete_pending_response(
    senders: &mut Vec<PendingServiceResponse>,
    client_gid: &[u8; 16],
    request_sequence: i64,
) -> (r: Option<u64>)
    ensures
        ({
            let left = open_ones(old(senders)@);
            match answered(left, client_gid@, request_sequence) {
                Some(i) => r == Some(left[i].stream) && final(senders)@ == left.remove(i),
                None => r is None && final(senders)@ == left,
            }
        }),
{
    let ghost all = senders@;
    let mut kept: Vec<PendingServiceResponse> = Vec::new();
    let mut i: usize = 0;
    proof {
        assert(all.subrange(0, 0) =~= Seq::empty());
    }
    while i < senders.len()
        invariant
            i <= senders@.len(),
            senders@ == all,
            kept@ == open_ones(all.subrange(0, i as int)),
        decreases senders.len() - i,
    {
        proof {
            assert(all.subrange(0, i + 1).drop_last() =~= all.subrange(0, i as int));
        }
        if !senders[i].closed {
            kept.push(senders[i]);
        }
        i += 1;
    }
    proof {
        assert(all.subrange(0, i as int) =~= all);
    }
    let ghost left = kept@;
    *senders = kept;
    if gid_addressed(client_gid) {
        let mut k: usize = 0;
        while k < senders.len()
            invariant
                k <= senders@.len(),
                senders@ == left,
                answered_from(left, client_gid@, request_sequence, k as int) == answered_from(
                    left,
                    client_gid@,
                    request_sequence,
                    0,
                ),
                addressed(client_gid@),
                left == open_ones(old(senders)@),
            decreases senders.len() - k,
        {
            if bytes::bytes_equal(senders[k].client_gid.as_slice(), client_gid.as_slice())
                && senders[k].request_sequence == request_sequence {
                let p = senders.remove(k);
                return Some(p.stream);
            }
            k += 1;
        }
        None
    } else if senders.len() > 0 {
        let p = senders.remove(0);
        Some(p.stream)
    } else {
        None
    }
}

/// An answer for a given client never takes another's request.
pub proof fn law_answers_stay_with_their_client(
    s: Seq<PendingServiceResponse>,
    gid: Seq<u8>,
    sequence: i64,
)
    requires
        addressed(gid),
    ensures
        answered(s, gid, sequence) matches Some(i) ==> 0 <= i < s.len() && answers(
            s[i],
            gid,
            sequence,
        ),
{
    lemma_answered_from(s, gid, sequence, 0);
}

proof fn lemma_answered_from(
    s: Seq<PendingServiceResponse>,
    gid: Seq<u8>,
    sequence: i64,
    from: int,
)
    ensures
        answered_from(s, gid, sequence, from) matches Some(i) ==> from <= i < s.len() && 0 <= i
            && answers(s[i], gid, sequence),
    decreases s.len() - from,
{
    if 0 <= from < s.len() {
        lemma_answered_from(s, gid, sequence, from + 1);
    }
}

/// A message that waits to be sent.
pub struct PendingTopicSend {
    pub data: Vec<u8>,
    pub publication_id: u64,
}

/// The last `n` of a queue.
pub open spec fn last_of<T>(s: Seq<T>, n: nat) -> Seq<T> {
    if s.len() <= n {
        s
    } else {
        s.subrange(s.len() - n, s.len() as int)
    }
}

/// How many waiting messages stay when another comes: all where none may be lost, else
/// one fewer than the depth, which is at least one.
pub open spec fn kept_count(send_depth: usize, waiting: nat) -> nat {
    if send_depth == usize::MAX {
        waiting
    } else if send_depth == 0 {
        0
    } else {
        (send_depth - 1) as nat
    }
}

/// Queues a message. Where the depth is the largest number none is lost; else the
/// oldest make room.
pub fn enqueue_send(queue: &mut Vec<PendingTopicSend>, item: PendingTopicSend, send_depth: usize)
    ensures
        final(queue)@ == last_of(
            old(queue)@,
            kept_count(send_depth, old(queue)@.len()),
        ).push(item),
{
    let ghost all = queue@;
    if send_depth != usize::MAX {
        let capacity: usize = if send_depth < 1 {
            1
        } else {
            send_depth
        };
        let ghost mut gone: int = 0;
        proof {
            assert(all.subrange(0, all.len() as int) =~= all);
        }
        while queue.len() >= capacity
            invariant
                capacity >= 1,
                0 <= gone <= all.len(),
                queue@ == all.subrange(gone, all.len() as int),
                gone > 0 ==> all.len() - gone >= capacity - 1,
            decreases queue@.len(),
        {
            queue.remove(0);
            proof {
                gone = gone + 1;
                assert(queue@ =~= all.subrange(gone, all.len() as int));
            }
        }
        proof {
            assert(queue@ =~= last_of(all, kept_count(send_depth, all.len())));
        }
    } else {
        proof {
            assert(queue@ =~= last_of(all, kept_count(send_depth, all.len())));
        }
    }
    queue.push(item);
}

/// What came of a try to open a stream for a service call.
#[derive(Clone, Copy, Debug, PartialEq, Eq, Structural)]
pub enum StreamEvent {
    Opened,
    /// It failed, or took too long.
    Failed,
    /// There is no connection. Whether it is known where the peer is, and how long ago
    /// a connection was last tried for, in milliseconds.
    NotConnected { reachable: bool, since_last_try_ms: u64 },
}

/// What is done next to open a stream for a service call.
#[derive(Clone, Copy, Debug, PartialEq, Eq, Structural)]
pub enum StreamStep {
    Use,
    /// Drop the connection, connect and try again at once.
    Reconnect,
    /// Connect, wait and try again.
    ConnectAndWait,
    /// Wait and try again.
    Wait,
}

/// What is done next to open a stream for a service call: a connection on which it
/// fails is given up; where there is none, one is tried for every half second.
pub fn stream_step(event: StreamEvent) -> (r: StreamStep)
    ensures
        r == (match event {
            StreamEvent::Opened => StreamStep::Use,
            StreamEvent::Failed => StreamStep::Reconnect,
            StreamEvent::NotConnected { reachable, since_last_try_ms } => if reachable
                && since_last_try_ms >= 500 {
                StreamStep::ConnectAndWait
            } else {
                StreamStep::Wait
            },
        }),
{
    match event {
        StreamEvent::Opened => StreamStep::Use,
        StreamEvent::Failed => StreamStep::Reconnect,
        StreamEvent::NotConnected { reachable, since_last_try_ms } => if reachable
            && since_last_try_ms >= 500 {
            StreamStep::ConnectAndWait
        } else {
            StreamStep::Wait
        },
    }
}

/// How often it is tried to open a stream for a service call.
pub const STREAM_TRIES: u32 = 50;

/// Whether to try once more to open a stream for a service call, after so many tries.
pub fn stream_tries_left(tries: u32) -> (r: bool)
    ensures
        r == (tries < STREAM_TRIES),
        r <==> tries < 50,
{
    tries < STREAM_TRIES
}

/// A cipher for what is sent over QUIC.
#[derive(Clone, Copy, Debug, PartialEq, Eq, Structural)]
pub enum QuicCipher {
    ChaCha20Poly1305,
    Aes256Gcm,
}

/// A cipher suite of TLS.
#[derive(Clone, Copy, Debug, PartialEq, Eq, Structural)]
pub enum TlsSuite {
    ChaCha20Poly1305Sha256,
    Aes256GcmSha384,
}

/// A way to agree on a key in TLS.
#[derive(Clone, Copy, Debug, PartialEq, Eq, Structural)]
pub enum TlsGroup {
    X25519MlKem768,
}

/// What TLS may use for a connection.
#[derive(Debug)]
pub struct TlsOffer {
    pub cipher_suites: Vec<TlsSuite>,
    pub kx_groups: Vec<TlsGroup>,
}

/// The one suite of a cipher.
pub open spec fn suite_of(cipher: QuicCipher) -> TlsSuite {
    match cipher {
        QuicCipher::ChaCha20Poly1305 => TlsSuite::ChaCha20Poly1305Sha256,
        QuicCipher::Aes256Gcm => TlsSuite::Aes256GcmSha384,
    }
}

/// What TLS may use for a connection: one suite, and a hybrid key exchange; no key
/// exchange where the key is delivered.
pub fn transport_provider_with_cipher(mode: SecurityMode, cipher: QuicCipher) -> (r: TlsOffer)
    ensures
        r.cipher_suites@ == seq![suite_of(cipher)],
        r.kx_groups@ == (match mode {
            SecurityMode::Classic => seq![TlsGroup::X25519MlKem768],
            SecurityMode::Qkd => Seq::<TlsGroup>::empty(),
        }),
{
    let mut cipher_suites: Vec<TlsSuite> = Vec::new();
    cipher_suites.push(
        match cipher {
            QuicCipher::ChaCha20Poly1305 => TlsSuite::ChaCha20Poly1305Sha256,
            QuicCipher::Aes256Gcm => TlsSuite::Aes256GcmSha384,
        },
    );
    let mut kx_groups: Vec<TlsGroup> = Vec::new();
    if let SecurityMode::Classic = mode {
        kx_groups.push(TlsGroup::X25519MlKem768);
    }
    proof {
        assert(cipher_suites@ =~= seq![suite_of(cipher)]);
        assert(mode == SecurityMode::Classic ==> kx_groups@ =~= seq![TlsGroup::X25519MlKem768]);
    }
    TlsOffer { cipher_suites, kx_groups }
}

/// A list of addresses to which others are added holds exactly its own and those of the
/// others that can be used, its own first and in their order.
pub proof fn law_addresses_are_added_exactly(s: Seq<PeerAddr>, more: Seq<PeerAddr>, a: PeerAddr)
    ensures
        with_addrs(s, more).contains(a) <==> s.contains(a) || (more.contains(a) && a.port != 0
            && a.ip != 0),
        s.len() <= with_addrs(s, more).len() <= s.len() + more.len(),
        with_addrs(s, more).subrange(0, s.len() as int) == s,
    decreases more.len(),
{
    if more.len() == 0 {
        assert(s.subrange(0, s.len() as int) =~= s);
    } else {
        let init = more.drop_last();
        let prev = with_addrs(s, init);
        let all = with_addrs(s, more);
        law_addresses_are_added_exactly(s, init, a);
        law_addresses_are_added_exactly(s, init, more.last());
        if prev.contains(a) {
            let k = choose|k: int| 0 <= k < prev.len() && prev[k] == a;
            assert(all[k] == a);
        }
        if init.contains(a) {
            let k = choose|k: int| 0 <= k < init.len() && init[k] == a;
            assert(more[k] == a);
        }
        if a == more.last() {
            assert(more[more.len() - 1] == a);
            if a.port != 0 && a.ip != 0 && !prev.contains(a) {
                assert(all[prev.len() as int] == a);
            }
        } else if more.contains(a) {
            let k = choose|k: int| 0 <= k < more.len() && more[k] == a;
            assert(init[k] == a);
        }
        if all.contains(a) && !prev.contains(a) {
            let k = choose|k: int| 0 <= k < all.len() && all[k] == a;
            if k < prev.len() {
                assert(prev[k] == a);
            }
        }
        assert(all.subrange(0, s.len() as int) =~= prev.subrange(0, s.len() as int));
    }
}

/// A peer is looked for at the preferred address and at those that are known of it, and
/// at no others.
pub proof fn law_candidates_exactly(
    addrs: Map<PeerId, Vec<PeerAddr>>,
    peer: PeerId,
    preferred: Option<PeerAddr>,
    a: PeerAddr,
)
    ensures
        candidates(addrs, peer, preferred).contains(a) <==> a.port != 0 && a.ip != 0 && (preferred
            == Some(a) || (addrs.contains_key(peer) && addrs[peer]@.contains(a))),
{
    let first = match preferred {
        Some(p) => with_addr(Seq::empty(), p),
        None => Seq::empty(),
    };
    law_addresses_are_added_exactly(first, known(addrs, peer), a);
    if preferred == Some(a) && a.usable() {
        assert(first[0] == a);
    }
}

/// An answer that names a client goes to the oldest request of that client with that
/// number, and to none where there is none; one that names no client goes to the oldest
/// of all.
pub proof fn law_answer_finds_its_request(
    s: Seq<PendingServiceResponse>,
    gid: Seq<u8>,
    sequence: i64,
    k: int,
)
    requires
        0 <= k < s.len(),
    ensures
        (exists|i: int| 0 <= i < gid.len() && (#[trigger] gid[i]) != 0) && s[k].client_gid@ == gid
            && s[k].request_sequence == sequence ==> (answered(s, gid, sequence) matches Some(j)
            && 0 <= j <= k && s[j].client_gid@ == gid && s[j].request_sequence == sequence),
        (forall|i: int| 0 <= i < gid.len() ==> (#[trigger] gid[i]) == 0) ==> answered(
            s,
            gid,
            sequence,
        ) == Some(0int),
{
    if s[k].client_gid@ == gid && s[k].request_sequence == sequence {
        lemma_answered_by(s, gid, sequence, 0, k);
    }
}

proof fn lemma_answered_by(
    s: Seq<PendingServiceResponse>,
    gid: Seq<u8>,
    sequence: i64,
    from: int,
    k: int,
)
    requires
        0 <= from <= k < s.len(),
        answers(s[k], gid, sequence),
    ensures
        answered_from(s, gid, sequence, from) matches Some(j) && from <= j <= k && answers(
            s[j],
            gid,
            sequence,
        ),
    decreases k - from,
{
    if !answers(s[from], gid, sequence) {
        lemma_answered_by(s, gid, sequence, from + 1, k);
    }
}

/// Requests whose streams are gone are dropped, and no others; those that stay keep their
/// order.
pub proof fn law_open_requests_stay(
    a: Seq<PendingServiceResponse>,
    b: Seq<PendingServiceResponse>,
    p: PendingServiceResponse,
)
    ensures
        open_ones(a + b) == open_ones(a) + open_ones(b),
        p.closed ==> open_ones(seq![p]).len() == 0,
        !p.closed ==> open_ones(seq![p]) == seq![p],
    decreases b.len(),
{
    assert(seq![p].drop_last() =~= Seq::empty());
    assert(open_ones(Seq::empty()) =~= Seq::empty());
    assert(open_ones(seq![p]) =~= (if p.closed {
        Seq::empty()
    } else {
        seq![p]
    }));
    if b.len() == 0 {
        assert(a + b =~= a);
        assert(open_ones(a) + open_ones(b) =~= open_ones(a));
    } else {
        law_open_requests_stay(a, b.drop_last(), p);
        assert((a + b).drop_last() =~= a + b.drop_last());
        assert(open_ones(a + b) =~= open_ones(a) + open_ones(b));
    }
}

/// A queue of a given depth never holds more than that many messages, or than one: the
/// newest comes last, and where there is no room the oldest go. At the largest depth
/// none goes.
pub proof fn law_queue_keeps_the_newest<T>(s: Seq<T>, item: T, send_depth: usize, k: int)
    requires
        0 <= k < s.len(),
    ensures
        ({
            let after = last_of(s, kept_count(send_depth, s.len())).push(item);
            &&& after.last() == item
            &&& send_depth == usize::MAX ==> after == s.push(item)
            &&& send_depth < usize::MAX ==> after.len() <= (if send_depth == 0 {
                1
            } else {
                send_depth as int
            })
            &&& s.len() < send_depth ==> after == s.push(item)
            &&& s.len() >= send_depth > 0 && send_depth < usize::MAX ==> after.len() == send_depth
            &&& k >= s.len() + 1 - after.len() ==> after[k - (s.len() + 1 - after.len())] == s[k]
        }),
{
}

/// What is found at the start of a stream is what was framed there: its length, the
/// highest byte first, says how much of what follows it is.
pub proof fn law_unframed_exactly(data: Seq<u8>)
    ensures
        unframed(data) is Some <==> data.len() >= 4 && data.len() >= 4 + bytes::be_value(
            data.subrange(0, 4),
        ),
        unframed(data) matches Some(wire) ==> wire.len() == bytes::be_value(data.subrange(0, 4))
            && data == data.subrange(0, 4) + wire + data.subrange(
            4 + wire.len() as int,
            data.len() as int,
        ),
        topic_unframed(data) is Some <==> data.len() >= 8 && unframed(
            data.subrange(8, data.len() as int),
        ) is Some,
{
    if let Some(wire) = unframed(data) {
        assert(data =~= data.subrange(0, 4) + wire + data.subrange(
            4 + wire.len() as int,
            data.len() as int,
        ));
    }
}

/// With delivered keys no handshake takes place without one: it is refused where the
/// daemon is not known or has no key. Without them none is asked for.
pub proof fn law_no_handshake_without_a_key(daemon: Option<u64>, s: StoreView)
    ensures
        handshake_key(SecurityMode::Classic, daemon, s) == Ok::<_, Seq<char>>(None::<PskView>),
        handshake_key(SecurityMode::Qkd, daemon, s) != Ok::<_, Seq<char>>(None::<PskView>),
        handshake_key(SecurityMode::Qkd, None, s) is Err,
        s.entries.len() == 0 ==> handshake_key(SecurityMode::Qkd, daemon, s) is Err,
{
}

/// Keys of different numbers are known under different identities, and what does not
/// start with the prefix names no key.
pub proof fn law_identities_differ(a: Seq<char>, b: Seq<char>, identity: Seq<u8>)
    ensures
        identity_of(a) == identity_of(b) ==> a == b,
        key_of_identity(identity) is Some ==> identity.len() >= 18,
{
    law_identity_round_trip(a);
    law_identity_round_trip(b);
    reveal_strlit("AXON-QKD-TLS13-v1:");
    is_ascii_chars_encode_utf8(QKD_IDENTITY_PREFIX@);
}

/// A variable that spells a number within its bound is that number, and the default
/// stands in for one that is not set or spells none.
pub proof fn law_number_or_default(n: nat, max: nat, default: int, v: Seq<char>)
    requires
        n <= max,
    ensures
        number_or(Some(text::decimal(n)), max, default) == n,
        number_or(None, max, default) == default,
        text::unsigned_value(v, max) is None ==> number_or(Some(v), max, default) == default,
{
    text::law_decimal_round_trip(n, max);
}

/// Keys change with the session or with the messages, as the setting says in any case
/// and between white space, and in no other way.
pub proof fn law_key_mode_exactly(value: Seq<char>)
    ensures
        key_mode_of(value) == Ok::<_, Seq<char>>(QkdKeyMode::Session) <==> config::lowered(
            text::trimmed(value),
        ) == seq!['s', 'e', 's', 's', 'i', 'o', 'n'],
        key_mode_of(value) == Ok::<_, Seq<char>>(QkdKeyMode::Messages10) <==> config::lowered(
            text::trimmed(value),
        ) == seq!['m', 'e', 's', 's', 'a', 'g', 'e', 's', '1', '0'],
{
    reveal_strlit("session");
    reveal_strlit("messages10");
    assert("session"@ =~= seq!['s', 'e', 's', 's', 'i', 'o', 'n']);
    assert("messages10"@ =~= seq!['m', 'e', 's', 's', 'a', 'g', 'e', 's', '1', '0']);
}

/// The suite of a cipher is the one that uses it.
pub proof fn law_suite_uses_its_cipher(cipher: QuicCipher)
    ensures
        cipher is Aes256Gcm <==> suite_of(cipher) is Aes256GcmSha384,
        cipher is ChaCha20Poly1305 <==> suite_of(cipher) is ChaCha20Poly1305Sha256,
{
}

/// The key of a handshake with a daemon is made of a readable key that the store holds for
/// that very daemon, and bears the identity of that key.
pub proof fn law_handshake_key_is_the_daemons(id: u64, s: StoreView)
    ensures
        handshake_key(SecurityMode::Qkd, Some(id), s) matches Ok(Some(p)) ==> exists|
            i: int,
            key_id: Seq<char>,
        |
            #![trigger s.entries[i], identity_of(key_id)]
            0 <= i < s.entries.len() && store::of_daemon(s.entries[i], id, false)
                && s.entries[i].key_id.text() == Some(key_id) && p.identity == identity_of(key_id)
                && p.secret == hkdf_sha256(
                encode_utf8(QKD_PSK_SALT@),
                s.entries[i].key,
                encode_utf8(key_id),
            ),
{
    let es = s.entries;
    let local = store::local_text(s);
    store::law_session_of_a_daemon_exactly(local, es, id, false);
    if let Some(k) = store::found(QueryView::Daemon { id, require_active: false }, local, es) {
        let i = choose|i: int|
            0 <= i < es.len() && store::of_daemon(#[trigger] es[i], id, false) && store::shows(
                local,
                es[i],
                k,
            ) && (forall|j: int| 0 <= j < i ==> !store::of_daemon(#[trigger] es[j], id, false));
        assert(store::of_daemon(s.entries[i], id, false) && psk_of(k).identity == identity_of(
            k.key_id,
        ));
    }
}

/// The key that an identity stands for is made of a readable key of that very name, and
/// bears that identity; where the store holds none of that name there is none.
pub proof fn law_identity_finds_its_own_key(key_id: Seq<char>, s: StoreView)
    ensures
        psk_for_identity(s, identity_of(key_id)) matches Some(p) ==> p.identity == identity_of(
            key_id,
        ) && exists|i: int|
            0 <= i < s.entries.len() && store::of_key(#[trigger] s.entries[i], key_id, false, None)
                && p.secret == hkdf_sha256(
                encode_utf8(QKD_PSK_SALT@),
                s.entries[i].key,
                encode_utf8(key_id),
            ),
        psk_for_identity(s, identity_of(key_id)) is None && store::local_text(s) is Some
            ==> forall|i: int|
            0 <= i < s.entries.len() ==> !store::of_key(
                #[trigger] s.entries[i],
                key_id,
                false,
                None,
            ),
{
    let es = s.entries;
    let local = store::local_text(s);
    law_identity_round_trip(key_id);
    store::law_session_of_a_key_exactly(local, es, key_id, false, None);
    let q = QueryView::Key { key_id, require_active: false, remote_sae_id: None };
    if let Some(k) = store::found(q, local, es) {
        let i = choose|i: int|
            0 <= i < es.len() && store::of_key(#[trigger] es[i], key_id, false, None)
                && store::shows(local, es[i], k) && (forall|j: int|
                0 <= j < i ==> !store::of_key(#[trigger] es[j], key_id, false, None));
        assert(store::of_key(es[i], key_id, false, None) && k.key_id == key_id && k.key
            == es[i].key);
    }
}

/// With delivered keys a handshake with a daemon gets a key exactly if the store holds a
/// readable one of that very daemon, be it active or waiting.
pub proof fn law_handshake_gets_any_key_of_the_daemon(id: u64, s: StoreView)
    requires
        store::local_text(s) is Some,
    ensures
        handshake_key(SecurityMode::Qkd, Some(id), s) is Ok <==> exists|i: int|
            0 <= i < s.entries.len() && store::of_daemon(#[trigger] s.entries[i], id, false),
{
    let es = s.entries;
    let local = store::local_text(s);
    store::law_session_of_a_daemon_exactly(local, es, id, false);
    if let Some(k) = store::found(QueryView::Daemon { id, require_active: false }, local, es) {
        let i = choose|i: int|
            0 <= i < es.len() && store::of_daemon(#[trigger] es[i], id, false) && store::shows(
                local,
                es[i],
                k,
            ) && (forall|j: int| 0 <= j < i ==> !store::of_daemon(#[trigger] es[j], id, false));
        assert(store::of_daemon(es[i], id, false));
    }
}

/// A framed message opens with its length in four bytes of which the first weighs most,
/// and the message follows. A framed message of a topic opens with the topic's hash in
/// eight such bytes.
pub proof fn law_frame_layout(wire: Seq<u8>, data: Seq<u8>)
    requires
        wire.len() <= u32::MAX,
    ensures
        framed(wire).len() == 4 + wire.len(),
        0x100_0000 * framed(wire)[0] + 0x1_0000 * framed(wire)[1] + 0x100 * framed(wire)[2]
            + framed(wire)[3] == wire.len(),
        framed(wire).subrange(4, framed(wire).len() as int) == wire,
        topic_unframed(data) matches Some(x) ==> x.0 == bytes::be_value(data.subrange(0, 8)) as u64
            && unframed(data.subrange(8, data.len() as int)) == Some(x.1),
{
    broadcast use bytes::lemma_be_bytes_len;

    let f = framed(wire);
    let l = bytes::be_bytes(wire.len(), 4);
    bytes::lemma_byte_range_values();
    bytes::lemma_be_round_trip(wire.len(), 4);
    assert(f.subrange(4, f.len() as int) =~= wire);
    assert(f[0] == l[0] && f[1] == l[1] && f[2] == l[2] && f[3] == l[3]);
    reveal_with_fuel(bytes::be_value, 5);
    let l3 = l.drop_last();
    let l2 = l3.drop_last();
    let l1 = l2.drop_last();
    assert(l3.last() == l[2] && l2.last() == l[1] && l1.last() == l[0]);
    assert(l1.drop_last().len() == 0);
}

/// The identity of a key is its number behind a fixed prefix, and its secret is derived
/// with a fixed salt.
pub proof fn law_identity_layout(key_id: Seq<char>, k: SessionKeyView)
    ensures
        identity_of(key_id) == encode_utf8("AXON-QKD-TLS13-v1:"@) + encode_utf8(key_id),
        psk_of(k).identity == encode_utf8("AXON-QKD-TLS13-v1:"@) + encode_utf8(k.key_id),
        psk_of(k).secret == hkdf_sha256(
            encode_utf8("AXON-QKD-TLS13-EXTERNAL-PSK-v1"@),
            k.key,
            encode_utf8(k.key_id),
        ),
{
}

} // verus!
