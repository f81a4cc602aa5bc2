//! How daemons find each other: the greeting that each sends to all.
use vstd::prelude::*;
use vstd::utf8::*;

#[allow(unused_imports)]
use crate::bytes;
use crate::bytes::{append_slice, push_le, read_le};
use crate::daemon::linking::addr_equal;
use crate::security_mode::SecurityMode;
use crate::text::utf8_text;

verus! {

pub const DAEMON_MULTICAST_ADDR: &'static str = "239.255.0.2";

pub const DAEMON_HELLO_INTERVAL_MS: u64 = 500;

pub const DAEMON_MULTICAST_PORT: u16 = 7403;

/// The byte that opens a greeting.
pub const HELLO_MAGIC: u8 = 0xDD;

/// What a daemon says of itself.
#[derive(Debug, Clone, PartialEq, Eq)]
pub struct HelloDaemon {
    pub daemon_id: u64,
    pub quic_port: u16,
    pub domains: Vec<u32>,
    pub generation: u64,
    /// The identity towards the key manager, where keys come from one.
    pub qkd_sae_id: Option<String>,
    pub security_mode: SecurityMode,
}

/// A greeting with its list and text as sequences.
#[verifier::ext_equal]
pub struct HelloView {
    pub daemon_id: u64,
    pub quic_port: u16,
    pub domains: Seq<u32>,
    pub generation: u64,
    pub qkd_sae_id: Option<Seq<char>>,
    pub security_mode: SecurityMode,
}

impl View for HelloDaemon {
    type V = HelloView;

    open spec fn view(&self) -> HelloView {
        HelloView {
            daemon_id: self.daemon_id,
            quic_port: self.quic_port,
            domains: self.domains@,
            generation: self.generation,
            qkd_sae_id: match self.qkd_sae_id {
                Some(s) => Some(s@),
                None => None,
            },
            security_mode: self.security_mode,
        }
    }
}

/// Domains on the wire, one behind the other.
pub open spec fn domains_bytes(ds: Seq<u32>) -> Seq<u8>
    decreases ds.len(),
{
    if ds.len() == 0 {
        Seq::empty()
    } else {
        domains_bytes(ds.drop_last()) + bytes::le_bytes(ds.last() as nat, 4)
    }
}

/// The identity on the wire. No identity is written as an empty one.
pub open spec fn sae_bytes(sae: Option<Seq<char>>) -> Seq<u8> {
    match sae {
        Some(s) => encode_utf8(s),
        None => Seq::empty(),
    }
}

/// A greeting up to and with its domains.
pub open spec fn hello_head(h: HelloView) -> Seq<u8> {
    seq![HELLO_MAGIC] + bytes::le_bytes(h.daemon_id as nat, 8) + bytes::le_bytes(
        h.quic_port as nat,
        2,
    ) + bytes::le_bytes(h.generation as nat, 8) + bytes::le_bytes(h.domains.len(), 2)
        + domains_bytes(h.domains)
}

/// A greeting without its profile.
pub open spec fn hello_without_mode(h: HelloView) -> Seq<u8> {
    hello_head(h) + bytes::le_bytes(sae_bytes(h.qkd_sae_id).len(), 2) + sae_bytes(h.qkd_sae_id)
}

/// A greeting on the wire.
pub open spec fn hello_bytes(h: HelloView) -> Seq<u8> {
    hello_without_mode(h).push(h.security_mode.spec_wire_value())
}

/// A greeting on the wire.
pub fn encode_hello_daemon(hello: &HelloDaemon) -> (r: Vec<u8>)
    ensures
        r@ == hello_bytes(hello@),
{
    let ghost ds = hello.domains@;
    let mut buf: Vec<u8> = Vec::new();
    buf.push(HELLO_MAGIC);
    push_le(&mut buf, hello.daemon_id, 8);
    push_le(&mut buf, hello.quic_port as u64, 2);
    push_le(&mut buf, hello.generation, 8);
    push_le(&mut buf, hello.domains.len() as u64, 2);
    let ghost before = buf@;
    let mut i: usize = 0;
    proof {
        assert(ds.subrange(0, 0) =~= Seq::empty());
        assert(buf@ =~= before + domains_bytes(ds.subrange(0, 0)));
    }
    while i < hello.domains.len()
        invariant
            i <= ds.len(),
            ds == hello.domains@,
            buf@ == before + domains_bytes(ds.subrange(0, i as int)),
        decreases ds.len() - i,
    {
        push_le(&mut buf, hello.domains[i] as u64, 4);
        i += 1;
        proof {
            assert(ds.subrange(0, i as int).drop_last() =~= ds.subrange(0, i - 1));
            assert(buf@ =~= before + domains_bytes(ds.subrange(0, i as int)));
        }
    }
    proof {
        assert(ds.subrange(0, i as int) =~= ds);
        assert(before =~= seq![HELLO_MAGIC] + bytes::le_bytes(hello.daemon_id as nat, 8)
            + bytes::le_bytes(hello.quic_port as nat, 2) + bytes::le_bytes(
            hello.generation as nat,
            8,
        ) + bytes::le_bytes(ds.len(), 2));
    }
    match &hello.qkd_sae_id {
        Some(s) => {
            let sae = s.as_str().as_bytes();
            push_le(&mut buf, sae.len() as u64, 2);
            append_slice(&mut buf, sae);
        },
        None => {
            push_le(&mut buf, 0, 2);
            proof {
                assert(buf@ =~= buf@ + sae_bytes(None));
            }
        },
    }
    buf.push(hello.security_mode.wire_value());
    buf
}

/// The number in the `n` bytes at `off`.
pub open spec fn number_at(buf: Seq<u8>, off: int, n: int) -> nat {
    bytes::le_value(buf.subrange(off, off + n))
}

/// Where the domains of a greeting end.
pub open spec fn domains_end(buf: Seq<u8>) -> int {
    21 + 4 * number_at(buf, 19, 2) as int
}

/// The identity and the profile that stand behind the domains of a greeting. Older
/// daemons leave out the profile, or both: their profile is the classic one.
pub open spec fn hello_tail(buf: Seq<u8>, off: int) -> Result<
    (Option<Seq<char>>, SecurityMode),
    Seq<char>,
> {
    if off == buf.len() {
        Ok((None, SecurityMode::Classic))
    } else if off + 2 > buf.len() {
        Err("truncated qkd sae length"@)
    } else {
        let len = number_at(buf, off, 2) as int;
        let end = off + 2 + len;
        let sae = buf.subrange(off + 2, end);
        if end > buf.len() {
            Err("truncated qkd sae id"@)
        } else if len > 0 && !valid_utf8(sae) {
            Err("invalid qkd sae id"@)
        } else {
            let id = if len == 0 {
                None
            } else {
                Some(decode_utf8(sae))
            };
            if end == buf.len() {
                Ok((id, SecurityMode::Classic))
            } else if end + 1 < buf.len() {
                Err("trailing hello data"@)
            } else {
                match SecurityMode::spec_from_wire(buf[end]) {
                    Some(mode) => Ok((id, mode)),
                    None => Err("invalid security mode"@),
                }
            }
        }
    }
}

/// What a greeting says, or why it cannot be read.
pub open spec fn hello_value(buf: Seq<u8>) -> Result<HelloView, Seq<char>> {
    if buf.len() < 21 || buf[0] != HELLO_MAGIC {
        Err("bad magic"@)
    } else if domains_end(buf) > buf.len() {
        Err("truncated"@)
    } else {
        match hello_tail(buf, domains_end(buf)) {
            Err(e) => Err(e),
            Ok((qkd_sae_id, security_mode)) => Ok(
                HelloView {
                    daemon_id: number_at(buf, 1, 8) as u64,
                    quic_port: number_at(buf, 9, 2) as u16,
                    domains: Seq::new(
                        number_at(buf, 19, 2),
                        |k: int| number_at(buf, 21 + 4 * k, 4) as u32,
                    ),
                    generation: number_at(buf, 11, 8) as u64,
                    qkd_sae_id,
                    security_mode,
                },
            ),
        }
    }
}

/// An identity as its characters.
pub open spec fn sae_view(id: Option<String>) -> Option<Seq<char>> {
    match id {
        Some(s) => Some(s@),
        None => None,
    }
}

fn read_tail(buf: &[u8], off: usize) -> (r: Result<(Option<String>, SecurityMode), &'static str>)
    requires
        off <= buf@.len(),
    ensures
        match r {
            Ok((id, mode)) => hello_tail(buf@, off as int) == Ok::<
                (Option<Seq<char>>, SecurityMode),
                Seq<char>,
            >((sae_view(id), mode)),
            Err(e) => hello_tail(buf@, off as int) == Err::<
                (Option<Seq<char>>, SecurityMode),
                Seq<char>,
            >(e@),
        },
{
    if off == buf.len() {
        return Ok((None, SecurityMode::Classic));
    }
    if buf.len() - off < 2 {
        return Err("truncated qkd sae length");
    }
    proof {
        bytes::lemma_byte_range_values();
    }
    let len: usize = read_le(buf, off, 2) as usize;
    let start: usize = off + 2;
    if buf.len() - start < len {
        return Err("truncated qkd sae id");
    }
    let end: usize = start + len;
    let id: Option<String> = if len == 0 {
        None
    } else {
        match utf8_text(vstd::slice::slice_subrange(buf, start, end)) {
            Some(s) => Some(s.to_owned()),
            None => {
                return Err("invalid qkd sae id");
            },
        }
    };
    if end == buf.len() {
        return Ok((id, SecurityMode::Classic));
    }
    if buf.len() - end > 1 {
        return Err("trailing hello data");
    }
    match SecurityMode::from_wire(buf[end]) {
        Some(mode) => Ok((id, mode)),
        None => Err("invalid security mode"),
    }
}

/// What a greeting says.
pub fn decode_hello_daemon(buf: &[u8]) -> (r: Result<HelloDaemon, &'static str>)
    ensures
        match r {
            Ok(h) => hello_value(buf@) == Ok::<HelloView, Seq<char>>(h@),
            Err(e) => hello_value(buf@) == Err::<HelloView, Seq<char>>(e@),
        },
{
    if buf.len() < 21 || buf[0] != HELLO_MAGIC {
        return Err("bad magic");
    }
    proof {
        bytes::lemma_byte_range_values();
    }
    let daemon_id: u64 = read_le(buf, 1, 8);
    let quic_port: u16 = read_le(buf, 9, 2) as u16;
    let generation: u64 = read_le(buf, 11, 8);
    let count: usize = read_le(buf, 19, 2) as usize;
    let mut domains: Vec<u32> = Vec::new();
    let mut off: usize = 21;
    let mut k: usize = 0;
    while k < count
        invariant
            k <= count <= 0xffff,
            count == number_at(buf@, 19, 2),
            off == 21 + 4 * k,
            off <= buf@.len(),
            buf@.len() >= 21,
            buf@[0] == HELLO_MAGIC,
            domains@ == Seq::new(k as nat, |k: int| number_at(buf@, 21 + 4 * k, 4) as u32),
            bytes::byte_range(4) == 0x1_0000_0000,
        decreases count - k,
    {
        if buf.len() - off < 4 {
            return Err("truncated");
        }
        domains.push(read_le(buf, off, 4) as u32);
        off += 4;
        k += 1;
        proof {
            assert(domains@ =~= Seq::new(
                k as nat,
                |k: int| number_at(buf@, 21 + 4 * k, 4) as u32,
            ));
        }
    }
    match read_tail(buf, off) {
        Ok((qkd_sae_id, security_mode)) => Ok(
            HelloDaemon {
                daemon_id,
                quic_port,
                domains,
                generation,
                qkd_sae_id,
                security_mode,
            },
        ),
        Err(e) => Err(e),
    }
}

/// Whether the lengths of a greeting can be written and its identity is not an empty
/// one.
pub open spec fn hello_fits(h: HelloView) -> bool {
    &&& h.domains.len() < 0x1_0000
    &&& (h.qkd_sae_id matches Some(s) ==> 0 < encode_utf8(s).len() < 0x1_0000)
}

proof fn lemma_domains_bytes(ds: Seq<u32>)
    ensures
        domains_bytes(ds).len() == 4 * ds.len(),
        forall|k: int|
            0 <= k < ds.len() ==> domains_bytes(ds).subrange(4 * k, 4 * k + 4)
                == bytes::le_bytes(#[trigger] ds[k] as nat, 4),
    decreases ds.len(),
{
    if ds.len() > 0 {
        let init = ds.drop_last();
        lemma_domains_bytes(init);
        bytes::lemma_le_bytes_len(ds.last() as nat, 4);
        assert forall|k: int| 0 <= k < ds.len() implies domains_bytes(ds).subrange(
            4 * k,
            4 * k + 4,
        ) == bytes::le_bytes(#[trigger] ds[k] as nat, 4) by {
            if k < init.len() {
                assert(domains_bytes(ds).subrange(4 * k, 4 * k + 4) =~= domains_bytes(
                    init,
                ).subrange(4 * k, 4 * k + 4));
                assert(init[k] == ds[k]);
            } else {
                assert(domains_bytes(ds).subrange(4 * k, 4 * k + 4) =~= bytes::le_bytes(
                    ds[k] as nat,
                    4,
                ));
            }
        }
    }
}

#[verifier::spinoff_prover]
#[verifier::rlimit(40)]
proof fn lemma_hello_head(h: HelloView, rest: Seq<u8>)
    requires
        h.domains.len() < 0x1_0000,
    ensures
        ({
            let buf = hello_head(h) + rest;
            &&& hello_head(h).len() == 21 + 4 * h.domains.len()
            &&& buf.len() >= 21
            &&& buf[0] == HELLO_MAGIC
            &&& number_at(buf, 1, 8) == h.daemon_id
            &&& number_at(buf, 9, 2) == h.quic_port
            &&& number_at(buf, 11, 8) == h.generation
            &&& number_at(buf, 19, 2) == h.domains.len()
            &&& forall|k: int|
                0 <= k < h.domains.len() ==> number_at(buf, 21 + 4 * k, 4)
                    == #[trigger] h.domains[k]
        }),
{
    broadcast use bytes::lemma_le_bytes_len;

    bytes::lemma_byte_range_values();
    let head = hello_head(h);
    let buf = head + rest;
    lemma_domains_bytes(h.domains);
    assert(buf.subrange(1, 9) =~= bytes::le_bytes(h.daemon_id as nat, 8));
    assert(buf.subrange(9, 11) =~= bytes::le_bytes(h.quic_port as nat, 2));
    assert(buf.subrange(11, 19) =~= bytes::le_bytes(h.generation as nat, 8));
    assert(buf.subrange(19, 21) =~= bytes::le_bytes(h.domains.len(), 2));
    bytes::lemma_le_round_trip(h.daemon_id as nat, 8);
    bytes::lemma_le_round_trip(h.quic_port as nat, 2);
    bytes::lemma_le_round_trip(h.generation as nat, 8);
    bytes::lemma_le_round_trip(h.domains.len(), 2);
    assert forall|k: int| 0 <= k < h.domains.len() implies number_at(buf, 21 + 4 * k, 4)
        == #[trigger] h.domains[k] by {
        assert(buf.subrange(21 + 4 * k, 21 + 4 * k + 4) =~= domains_bytes(h.domains).subrange(
            4 * k,
            4 * k + 4,
        ));
        bytes::lemma_le_round_trip(h.domains[k] as nat, 4);
    }
}

/// Reading a greeting gives back what was written. A greeting without its profile,
/// as older daemons send it, reads as one of the classic profile, and one without
/// its identity too.
pub proof fn law_hello_round_trip(h: HelloView)
    requires
        hello_fits(h),
    ensures
        hello_value(hello_bytes(h)) == Ok::<HelloView, Seq<char>>(h),
        hello_value(hello_without_mode(h)) == Ok::<HelloView, Seq<char>>(
            HelloView { security_mode: SecurityMode::Classic, ..h },
        ),
        hello_value(hello_head(h)) == Ok::<HelloView, Seq<char>>(
            HelloView { qkd_sae_id: None, security_mode: SecurityMode::Classic, ..h },
        ),
{
    broadcast use bytes::lemma_le_bytes_len;

    bytes::lemma_byte_range_values();
    let head = hello_head(h);
    let sae = sae_bytes(h.qkd_sae_id);
    let len = bytes::le_bytes(sae.len(), 2);
    let short = hello_without_mode(h);
    let full = hello_bytes(h);
    let off = head.len() as int;
    let mode = seq![h.security_mode.spec_wire_value()];
    assert(head =~= head + Seq::empty());
    assert(short =~= head + (len + sae));
    assert(full =~= head + (len + sae + mode));
    lemma_hello_head(h, Seq::empty());
    lemma_hello_head(h, len + sae);
    lemma_hello_head(h, len + sae + mode);
    bytes::lemma_le_round_trip(sae.len(), 2);
    assert(short.subrange(off, off + 2) =~= len);
    assert(full.subrange(off, off + 2) =~= len);
    assert(short.subrange(off + 2, off + 2 + sae.len()) =~= sae);
    assert(full.subrange(off + 2, off + 2 + sae.len()) =~= sae);
    if h.qkd_sae_id is Some {
        let s = h.qkd_sae_id->0;
        encode_utf8_valid_utf8(s);
        encode_utf8_decode_utf8(s);
    }
    let ds = Seq::new(h.domains.len(), |k: int| number_at(full, 21 + 4 * k, 4) as u32);
    assert(ds =~= h.domains);
    assert(Seq::new(h.domains.len(), |k: int| number_at(short, 21 + 4 * k, 4) as u32)
        =~= h.domains);
    assert(Seq::new(h.domains.len(), |k: int| number_at(head, 21 + 4 * k, 4) as u32)
        =~= h.domains);
}

/// What a packet on the discovery port is, by its first byte.
#[derive(Clone, Copy, Debug, PartialEq, Eq, Structural)]
pub enum PacketKind {
    Hello,
    QkdControl,
    Other,
}

/// What a packet on the discovery port is, by its first byte.
pub fn classify_packet(data: &[u8]) -> (r: PacketKind)
    ensures
        r == (if data@.len() > 0 && data@[0] == HELLO_MAGIC {
            PacketKind::Hello
        } else if data@.len() > 0 && 0x51 <= data@[0] <= 0x53 {
            PacketKind::QkdControl
        } else {
            PacketKind::Other
        }),
        r is Hello <==> data@.len() > 0 && data@[0] == 0xDD,
        r is QkdControl <==> data@.len() > 0 && (data@[0] == 0x51 || data@[0] == 0x52 || data@[0]
            == 0x53),
{
    if data.len() == 0 {
        return PacketKind::Other;
    }
    let first: u8 = data[0];
    if first == HELLO_MAGIC {
        PacketKind::Hello
    } else if 0x51 <= first && first <= 0x53 {
        PacketKind::QkdControl
    } else {
        PacketKind::Other
    }
}

/// Whether greetings can be sent from an address of this host: it is neither one of
/// the loopback nor unspecified.
pub open spec fn sends_from(ip: [u8; 4]) -> bool {
    ip@[0] != 127 && !(ip@[0] == 0 && ip@[1] == 0 && ip@[2] == 0 && ip@[3] == 0)
}

/// The addresses from which greetings can be sent, each once, in order.
pub open spec fn sending_ipv4s(addrs: Seq<[u8; 4]>) -> Seq<[u8; 4]>
    decreases addrs.len(),
{
    if addrs.len() == 0 {
        Seq::empty()
    } else {
        let rest = sending_ipv4s(addrs.drop_last());
        if sends_from(addrs.last()) && !rest.contains(addrs.last()) {
            rest.push(addrs.last())
        } else {
            rest
        }
    }
}

/// Picks, among the addresses of this host's interfaces, those from which greetings
/// can be sent.
pub fn non_loopback_ipv4s(addrs: &[[u8; 4]]) -> (r: Vec<[u8; 4]>)
    ensures
        r@ == sending_ipv4s(addrs@),
{
    let mut out: Vec<[u8; 4]> = Vec::new();
    let mut i: usize = 0;
    proof {
        assert(addrs@.subrange(0, 0) =~= Seq::<[u8; 4]>::empty());
    }
    while i < addrs.len()
        invariant
            i <= addrs@.len(),
            out@ == sending_ipv4s(addrs@.subrange(0, i as int)),
        decreases addrs@.len() - i,
    {
        let ip: [u8; 4] = addrs[i];
        proof {
            assert(addrs@.subrange(0, i + 1).drop_last() =~= addrs@.subrange(0, i as int));
        }
        let mut known = false;
        let mut j: usize = 0;
        while j < out.len() && !known
            invariant
                j <= out@.len(),
                known ==> out@.contains(ip),
                !known ==> forall|k: int| 0 <= k < j ==> out@[k] != ip,
            decreases out@.len() - j + (if known { 0int } else { 1 }),
        {
            if addr_equal(&out[j], &ip) {
                known = true;
            } else {
                j += 1;
            }
        }
        if ip[0] != 127 && !(ip[0] == 0 && ip[1] == 0 && ip[2] == 0 && ip[3] == 0) && !known {
            out.push(ip);
        }
        i += 1;
    }
    proof {
        assert(addrs@.subrange(0, i as int) =~= addrs@);
    }
    out
}

/// Where the parts of a greeting stand: a fixed first byte, the identity of the daemon,
/// its port, its revision and the number of its domains, each with its lowest byte
/// first, then the domains, and the profile in the last byte.
pub proof fn law_hello_layout(h: HelloView, k: int)
    requires
        h.domains.len() < 0x1_0000,
        0 <= k < h.domains.len(),
    ensures
        hello_bytes(h)[0] == 0xDD,
        bytes::le_value(hello_bytes(h).subrange(1, 9)) == h.daemon_id,
        bytes::le_value(hello_bytes(h).subrange(9, 11)) == h.quic_port,
        bytes::le_value(hello_bytes(h).subrange(11, 19)) == h.generation,
        bytes::le_value(hello_bytes(h).subrange(19, 21)) == h.domains.len(),
        bytes::le_value(hello_bytes(h).subrange(21 + 4 * k, 25 + 4 * k)) == h.domains[k],
        hello_bytes(h).last() == (if h.security_mode is Classic {
            0u8
        } else {
            1u8
        }),
        hello_bytes(h).len() == 21 + 4 * h.domains.len() + 2 + sae_bytes(h.qkd_sae_id).len() + 1,
{
    broadcast use bytes::lemma_le_bytes_len;

    let head = hello_head(h);
    let sae = sae_bytes(h.qkd_sae_id);
    let len = bytes::le_bytes(sae.len(), 2);
    let mode = seq![h.security_mode.spec_wire_value()];
    assert(hello_bytes(h) =~= head + (len + sae + mode));
    lemma_hello_head(h, len + sae + mode);
    assert(h.domains[k] == h.domains[k]);
}

/// What does not start as a greeting is none, nor is one that is cut short within its
/// domains, nor one with more behind it than a profile.
pub proof fn law_no_greeting_without_its_parts(buf: Seq<u8>)
    ensures
        buf.len() < 21 ==> hello_value(buf) is Err,
        buf.len() > 0 && buf[0] != 0xDD ==> hello_value(buf) is Err,
        buf.len() >= 21 && 21 + 4 * bytes::le_value(buf.subrange(19, 21)) > buf.len()
            ==> hello_value(buf) is Err,
        hello_value(buf) matches Ok(h) ==> h.domains.len() == bytes::le_value(
            buf.subrange(19, 21),
        ) && buf.len() >= 21 + 4 * h.domains.len(),
{
}

/// Greetings are sent from every address of this host that is neither one of the
/// loopback nor unspecified, from each once and from no other.
pub proof fn law_greetings_are_sent_from_outside_addresses(addrs: Seq<[u8; 4]>, ip: [u8; 4])
    ensures
        sending_ipv4s(addrs).contains(ip) <==> addrs.contains(ip) && ip@[0] != 127 && (ip@[0] != 0
            || ip@[1] != 0 || ip@[2] != 0 || ip@[3] != 0),
        sending_ipv4s(addrs).no_duplicates(),
    decreases addrs.len(),
{
    if addrs.len() > 0 {
        let init = addrs.drop_last();
        let rest = sending_ipv4s(init);
        let all = sending_ipv4s(addrs);
        law_greetings_are_sent_from_outside_addresses(init, ip);
        law_greetings_are_sent_from_outside_addresses(init, addrs.last());
        if rest.contains(ip) {
            let k = choose|k: int| 0 <= k < rest.len() && rest[k] == ip;
            assert(all[k] == ip);
        }
        if init.contains(ip) {
            let k = choose|k: int| 0 <= k < init.len() && init[k] == ip;
            assert(addrs[k] == ip);
        }
        if ip == addrs.last() {
            assert(addrs[addrs.len() - 1] == ip);
            if sends_from(ip) && !rest.contains(ip) {
                assert(all[rest.len() as int] == ip);
            }
        } else if addrs.contains(ip) {
            let k = choose|k: int| 0 <= k < addrs.len() && addrs[k] == ip;
            assert(init[k] == ip);
        }
        if all.contains(ip) && !rest.contains(ip) {
            let k = choose|k: int| 0 <= k < all.len() && all[k] == ip;
            if k < rest.len() {
                assert(rest[k] == ip);
            }
        }
    }
}

/// A greeting is read exactly if it ends where one may end: behind its domains, behind the
/// identifier of its entity, or one byte behind that, which then stands for a profile.
/// The shorter ones are of the classic profile, and an identifier without bytes is none.
pub proof fn law_greeting_ends_exactly(buf: Seq<u8>)
    ensures
        ({
            let d = 21 + 4 * bytes::le_value(buf.subrange(19, 21)) as int;
            let l = bytes::le_value(buf.subrange(d, d + 2)) as int;
            let end = d + 2 + l;
            let readable = l == 0 || valid_utf8(buf.subrange(d + 2, end));
            &&& hello_value(buf) is Ok <==> buf.len() >= 21 && buf[0] == 0xDD && (buf.len() == d || (
            buf.len() >= d + 2 && readable && (buf.len() == end || (buf.len() == end + 1 && (buf[end]
                == 0 || buf[end] == 1)))))
            &&& hello_value(buf) matches Ok(h) ==> {
                &&& h.qkd_sae_id is Some <==> buf.len() > d && l > 0
                &&& h.qkd_sae_id matches Some(s) ==> s == decode_utf8(buf.subrange(d + 2, end))
                &&& h.security_mode is Qkd <==> buf.len() == end + 1 && buf.len() > d && buf[end] == 1
                &&& h.daemon_id == bytes::le_value(buf.subrange(1, 9)) as u64
                &&& h.quic_port == bytes::le_value(buf.subrange(9, 11)) as u16
                &&& h.generation == bytes::le_value(buf.subrange(11, 19)) as u64
            }
        }),
{
}

} // verus!
