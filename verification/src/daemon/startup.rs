//! How the daemon starts: its command line, its ports, its process file, its
//! configured peers and its identity.
use ring::rand::{SecureRandom, SystemRandom};
use vstd::prelude::*;

#[allow(unused_imports)]
use crate::bytes;
use crate::bytes::read_le;
use crate::daemon::peer_discovery::DAEMON_MULTICAST_PORT;
use crate::quic_transport::PeerAddr;
#[allow(unused_imports)]
use crate::text;
use crate::text::{
    char_is_white, chars_of, find_first, parse_unsigned, push_char, push_decimal, text_equal,
    text_of, trim_text,
};

verus! {

/// The port that the daemon asks for first.
pub const DEFAULT_BASE_PORT: u16 = 7402;

/// The last port that the daemon falls back to by default.
pub const DEFAULT_FALLBACK_PORT_END: u16 = 7420;

/// How many ports a configured range yields at most.
pub const MAX_PORT_CANDIDATES: usize = 1024;

/// The ports `start..=end` in order, without the one that multicast uses.
pub open spec fn ports_between(start: int, end: int) -> Seq<u16>
    decreases end - start + 1,
{
    if end < start {
        Seq::empty()
    } else if end == DAEMON_MULTICAST_PORT {
        ports_between(start, end - 1)
    } else {
        ports_between(start, end - 1).push(end as u16)
    }
}

/// At most the first `n` items of `s`.
pub open spec fn head(s: Seq<u16>, n: nat) -> Seq<u16> {
    if s.len() <= n {
        s
    } else {
        s.subrange(0, n as int)
    }
}

/// The first `limit` usable ports of `start..=end`.
fn usable_ports(start: u16, end: u16, limit: usize) -> (r: Vec<u16>)
    ensures
        r@ == head(ports_between(start as int, end as int), limit as nat),
{
    let mut out: Vec<u16> = Vec::new();
    let mut p: u32 = start as u32;
    proof {
        assert(ports_between(start as int, p - 1) =~= Seq::<u16>::empty());
    }
    while p <= end as u32
        invariant
            start <= p <= end + 1 || (start > end && p == start),
            out@ == head(ports_between(start as int, p - 1), limit as nat),
        decreases end + 1 - p,
    {
        let ghost before = ports_between(start as int, p - 1);
        if p != DAEMON_MULTICAST_PORT as u32 {
            if out.len() < limit {
                out.push(p as u16);
            }
            proof {
                assert(out@ =~= head(before.push(p as u16), limit as nat));
            }
        }
        p += 1;
    }
    proof {
        if start > end {
            assert(ports_between(start as int, end as int) =~= Seq::<u16>::empty());
        }
    }
    out
}

/// The ports that the daemon tries when none is configured.
pub fn default_daemon_port_candidates() -> (r: Vec<u16>)
    ensures
        r@ == ports_between(DEFAULT_BASE_PORT as int, DEFAULT_FALLBACK_PORT_END as int),
{
    let r = usable_ports(DEFAULT_BASE_PORT, DEFAULT_FALLBACK_PORT_END, MAX_PORT_CANDIDATES);
    proof {
        lemma_ports_len(DEFAULT_BASE_PORT as int, DEFAULT_FALLBACK_PORT_END as int);
    }
    r
}

/// A range holds no more usable ports than ports.
proof fn lemma_ports_len(start: int, end: int)
    requires
        start <= end + 1,
    ensures
        ports_between(start, end).len() <= end - start + 1,
    decreases end - start + 1,
{
    if start <= end {
        lemma_ports_len(start, end - 1);
    }
}

/// The ports that the text of a range, `start-end`, stands for.
pub open spec fn port_range(value: Seq<char>) -> Option<Seq<u16>> {
    match text::first_index(value, '-') {
        None => None,
        Some(dash) => {
            let low = text::unsigned_value(text::trimmed(value.subrange(0, dash)), u16::MAX as nat);
            let high = text::unsigned_value(
                text::trimmed(value.subrange(dash + 1, value.len() as int)),
                u16::MAX as nat,
            );
            if low is None || high is None || low->0 == 0 || high->0 < low->0 {
                None
            } else {
                let ports = head(
                    ports_between(low->0 as int, high->0 as int),
                    MAX_PORT_CANDIDATES as nat,
                );
                if ports.len() == 0 {
                    None
                } else {
                    Some(ports)
                }
            }
        },
    }
}

/// Reads a range of ports written as `start-end`. `None` unless both ends are
/// numbers of 16 bits, the first is at least 1 and at most the second, and a usable
/// port lies between them.
pub fn parse_port_range(value: &str) -> (r: Option<Vec<u16>>)
    ensures
        match r {
            Some(ports) => port_range(value@) == Some(ports@) && ports@.len() > 0,
            None => port_range(value@) is None,
        },
{
    let chars = chars_of(value);
    let n: usize = chars.len();
    match find_first(&chars, '-') {
        None => None,
        Some(dash) => {
            let low_text = text_of(&chars, 0, dash);
            let high_text = text_of(&chars, dash + 1, n);
            let low = match parse_unsigned(&trim_text(&low_text), 65535) {
                Some(n) => n,
                None => {
                    return None;
                },
            };
            let high = match parse_unsigned(&trim_text(&high_text), 65535) {
                Some(n) => n,
                None => {
                    return None;
                },
            };
            if low == 0 || high < low {
                return None;
            }
            let ports = usable_ports(low as u16, high as u16, MAX_PORT_CANDIDATES);
            if ports.len() == 0 {
                None
            } else {
                Some(ports)
            }
        },
    }
}

/// The single port that the text of a port setting stands for.
pub open spec fn single_port(value: Option<Seq<char>>) -> Option<u16> {
    match value {
        None => None,
        Some(v) => match text::unsigned_value(text::trimmed(v), u16::MAX as nat) {
            Some(n) => if n != 0 {
                Some(n as u16)
            } else {
                None
            },
            None => None,
        },
    }
}

/// The ports to try, and which settings were ignored on the way.
pub struct PortChoice {
    pub ports: Vec<u16>,
    pub port_ignored: bool,
    pub range_ignored: bool,
}

/// The ports that the two settings ask for: a valid single port wins, then a valid
/// range, then the defaults.
pub open spec fn chosen_ports(port: Option<Seq<char>>, range: Option<Seq<char>>) -> Seq<u16> {
    match single_port(port) {
        Some(p) => seq![p],
        None => if range is Some && port_range(range->0) is Some {
            port_range(range->0)->0
        } else {
            ports_between(DEFAULT_BASE_PORT as int, DEFAULT_FALLBACK_PORT_END as int)
        },
    }
}

/// Chooses the ports to try from the setting of a port and that of a range of
/// ports. A setting that is read and holds no usable value is ignored.
pub fn daemon_port_candidates_from_env(port: Option<&str>, range: Option<&str>) -> (r: PortChoice)
    ensures
        r.ports@ == chosen_ports(text::opt_str(port), text::opt_str(range)),
        r.port_ignored == (port is Some && single_port(text::opt_str(port)) is None),
        r.range_ignored == (single_port(text::opt_str(port)) is None && range is Some
            && port_range(text::opt_str(range)->0) is None),
{
    let mut port_ignored = false;
    if let Some(value) = port {
        if let Some(n) = parse_unsigned(&trim_text(value), 65535) {
            if n != 0 {
                let mut ports: Vec<u16> = Vec::new();
                ports.push(n as u16);
                proof {
                    assert(ports@ =~= seq![n as u16]);
                }
                return PortChoice { ports, port_ignored: false, range_ignored: false };
            }
        }
        port_ignored = true;
    }
    let mut range_ignored = false;
    if let Some(value) = range {
        if let Some(ports) = parse_port_range(value) {
            return PortChoice { ports, port_ignored, range_ignored: false };
        }
        range_ignored = true;
    }
    PortChoice { ports: default_daemon_port_candidates(), port_ignored, range_ignored }
}

/// What the daemon was told on its command line.
pub struct Config {
    pub port: u16,
    pub port_candidates: Vec<u16>,
    pub pid_file: String,
    pub foreground: bool,
}

#[verifier::ext_equal]
pub struct ConfigView {
    pub port: u16,
    pub port_candidates: Seq<u16>,
    pub pid_file: Seq<char>,
    pub foreground: bool,
}

impl View for Config {
    type V = ConfigView;

    open spec fn view(&self) -> ConfigView {
        ConfigView {
            port: self.port,
            port_candidates: self.port_candidates@,
            pid_file: self.pid_file@,
            foreground: self.foreground,
        }
    }
}

/// What the command line asks for.
pub enum Launch {
    /// Run the daemon.
    Run(Config),
    /// Say whether the daemon of this process file runs.
    Status(String),
    /// Print the usage.
    Help,
    /// A flag that is none of the daemon's.
    Unknown(String),
}

#[verifier::ext_equal]
pub enum LaunchView {
    Run(ConfigView),
    Status(Seq<char>),
    Help,
    Unknown(Seq<char>),
}

impl View for Launch {
    type V = LaunchView;

    open spec fn view(&self) -> LaunchView {
        match self {
            Launch::Run(c) => LaunchView::Run(c@),
            Launch::Status(p) => LaunchView::Status(p@),
            Launch::Help => LaunchView::Help,
            Launch::Unknown(f) => LaunchView::Unknown(f@),
        }
    }
}

/// The configuration after the option `flag` with the value `value`.
pub open spec fn with_option(cfg: ConfigView, flag: Seq<char>, value: Seq<char>) -> ConfigView {
    if flag == "--port"@ {
        match text::unsigned_value(value, u16::MAX as nat) {
            Some(n) => ConfigView { port: n as u16, port_candidates: seq![n as u16], ..cfg },
            None => cfg,
        }
    } else if flag == "--port-range"@ {
        match port_range(value) {
            Some(ports) => ConfigView { port: ports[0], port_candidates: ports, ..cfg },
            None => cfg,
        }
    } else {
        ConfigView { pid_file: value, ..cfg }
    }
}

/// What the arguments from number `i` on ask for, given what came before them.
pub open spec fn launch(args: Seq<String>, i: int, cfg: ConfigView) -> LaunchView
    decreases args.len() - i,
{
    if i >= args.len() {
        LaunchView::Run(cfg)
    } else {
        let flag = args[i]@;
        if flag == "--foreground"@ {
            launch(args, i + 1, ConfigView { foreground: true, ..cfg })
        } else if flag == "--port"@ || flag == "--port-range"@ || flag == "--pid-file"@ {
            if i + 1 < args.len() {
                launch(args, i + 2, with_option(cfg, flag, args[i + 1]@))
            } else {
                LaunchView::Run(cfg)
            }
        } else if flag == "--status"@ {
            LaunchView::Status(cfg.pid_file)
        } else if flag == "--help"@ {
            LaunchView::Help
        } else {
            LaunchView::Unknown(flag)
        }
    }
}

/// The configuration before any argument is read.
pub open spec fn initial_config(candidates: Seq<u16>) -> ConfigView {
    ConfigView {
        port: if candidates.len() > 0 {
            candidates[0]
        } else {
            DEFAULT_BASE_PORT
        },
        port_candidates: candidates,
        pid_file: "/tmp/axon_daemon.pid"@,
        foreground: false,
    }
}

/// Applies the option `flag` with the value `value`.
fn apply_option(cfg: &mut Config, flag: &str, value: &str)
    requires
        flag@ == "--port"@ || flag@ == "--port-range"@ || flag@ == "--pid-file"@,
    ensures
        final(cfg)@ == with_option(old(cfg)@, flag@, value@),
{
    if text_equal(flag, "--port") {
        if let Some(n) = parse_unsigned(value, 65535) {
            let mut ports: Vec<u16> = Vec::new();
            ports.push(n as u16);
            cfg.port = n as u16;
            cfg.port_candidates = ports;
            proof {
                assert(cfg.port_candidates@ =~= seq![n as u16]);
            }
        }
    } else if text_equal(flag, "--port-range") {
        if let Some(ports) = parse_port_range(value) {
            cfg.port = ports[0];
            cfg.port_candidates = ports;
        }
    } else {
        cfg.pid_file = value.to_owned();
    }
}

/// Reads the command line, the program's name first, over the ports to try. A
/// missing or unreadable value of an option is passed over; the first `--status`,
/// `--help` or unknown flag decides alone.
pub fn parse_args(args: &Vec<String>, candidates: Vec<u16>) -> (r: Launch)
    ensures
        r@ == launch(args@, 1, initial_config(candidates@)),
{
    let port: u16 = if candidates.len() > 0 {
        candidates[0]
    } else {
        DEFAULT_BASE_PORT
    };
    let mut cfg = Config {
        port,
        port_candidates: candidates,
        pid_file: "/tmp/axon_daemon.pid".to_owned(),
        foreground: false,
    };
    let ghost start = cfg@;
    proof {
        assert(start =~= initial_config(candidates@));
    }
    let mut i: usize = 1;
    while i < args.len()
        invariant
            i >= 1,
            start == initial_config(candidates@),
            launch(args@, i as int, cfg@) == launch(args@, 1, start),
        decreases args.len() - i,
    {
        let ghost here = cfg@;
        let flag: &str = args[i].as_str();
        if text_equal(flag, "--foreground") {
            cfg.foreground = true;
            proof {
                assert(cfg@ =~= (ConfigView { foreground: true, ..here }));
            }
            i += 1;
        } else if text_equal(flag, "--port") || text_equal(flag, "--port-range") || text_equal(
            flag,
            "--pid-file",
        ) {
            if args.len() - i > 1 {
                apply_option(&mut cfg, flag, args[i + 1].as_str());
                i += 1;
            } else {
                return Launch::Run(cfg);
            }
            i += 1;
        } else if text_equal(flag, "--status") {
            return Launch::Status(cfg.pid_file);
        } else if text_equal(flag, "--help") {
            return Launch::Help;
        } else {
            return Launch::Unknown(flag.to_owned());
        }
    }
    Launch::Run(cfg)
}

/// The process number that a process file holds.
pub open spec fn pid_of_text(text: Seq<char>) -> Option<nat> {
    text::unsigned_value(text::trimmed(text), u32::MAX as nat)
}

/// Reads the process number in a process file.
pub fn pid_in_file(text: &str) -> (r: Option<u32>)
    ensures
        match r {
            Some(pid) => pid_of_text(text@) == Some(pid as nat),
            None => pid_of_text(text@) is None,
        },
{
    match parse_unsigned(&trim_text(text), 4294967295) {
        Some(pid) => Some(pid as u32),
        None => None,
    }
}

/// Which daemon runs, given the process number in its file and whether a process of
/// that number is alive: none, where the file is stale.
pub fn running_daemon(pid: Option<u32>, alive: bool) -> (r: Option<u32>)
    ensures
        r == (if pid is Some && pid->0 > 0 && alive {
            pid
        } else {
            None
        }),
{
    match pid {
        Some(p) => if p > 0 && alive {
            Some(p)
        } else {
            None
        },
        None => None,
    }
}

/// Whether a daemon may start beside the process file that was found. It may not
/// where the process named there is alive.
pub fn check_pid(pid: Option<u32>, alive: bool) -> (r: Result<(), String>)
    ensures
        r is Err <==> pid is Some && alive,
        r matches Err(e) ==> e@ == "daemon already running (PID "@ + text::decimal(pid->0 as nat)
            + ")"@,
{
    match pid {
        Some(p) => if alive {
            let mut e = "daemon already running (PID ".to_owned();
            push_decimal(&mut e, p as u64);
            e.append(")");
            Err(e)
        } else {
            Ok(())
        },
        None => Ok(()),
    }
}

/// What the daemon writes into its process file.
pub fn pid_file_text(pid: u32) -> (r: String)
    ensures
        r@ == text::decimal(pid as nat) + "\n"@,
{
    let mut s = String::new();
    push_decimal(&mut s, pid as u64);
    s.append("\n");
    proof {
        assert(s@ =~= text::decimal(pid as nat) + "\n"@);
    }
    s
}

/// Ports as they are printed in a list: parted by commas.
pub open spec fn port_list(ports: Seq<u16>) -> Seq<char>
    decreases ports.len(),
{
    if ports.len() == 0 {
        Seq::empty()
    } else if ports.len() == 1 {
        text::decimal(ports[0] as nat)
    } else {
        port_list(ports.drop_last()) + ", "@ + text::decimal(ports.last() as nat)
    }
}

/// The report that none of `ports` could be had, the last attempt having failed
/// with `last_err`.
pub fn no_port_text(ports: &[u16], last_err: &str) -> (r: String)
    ensures
        r@ == "no daemon port available in ["@ + port_list(ports@) + "]: "@ + last_err@,
{
    let mut s = "no daemon port available in [".to_owned();
    let ghost opening = s@;
    let mut i: usize = 0;
    proof {
        assert(opening + port_list(ports@.subrange(0, 0)) =~= opening);
    }
    while i < ports.len()
        invariant
            i <= ports@.len(),
            s@ == opening + port_list(ports@.subrange(0, i as int)),
        decreases ports@.len() - i,
    {
        if i > 0 {
            s.append(", ");
        }
        push_decimal(&mut s, ports[i] as u64);
        proof {
            let t = ports@.subrange(0, i + 1);
            assert(t.drop_last() =~= ports@.subrange(0, i as int));
            assert(s@ =~= opening + port_list(t));
        }
        i += 1;
    }
    proof {
        assert(ports@.subrange(0, i as int) =~= ports@);
    }
    s.append("]: ");
    s.append(last_err);
    s
}

/// Whether `c` parts two entries of the list of configured peers.
pub open spec fn parts_peers(c: char) -> bool {
    c == ',' || c == ';' || text::is_white(c)
}

/// `words` with `word` behind them, unless it is empty.
pub open spec fn with_word(words: Seq<Seq<char>>, word: Seq<char>) -> Seq<Seq<char>> {
    if word.len() == 0 {
        words
    } else {
        words.push(word)
    }
}

/// The complete entries of `s`, and what follows the last separator.
pub open spec fn peer_words(s: Seq<char>) -> (Seq<Seq<char>>, Seq<char>)
    decreases s.len(),
{
    if s.len() == 0 {
        (Seq::empty(), Seq::empty())
    } else {
        let (words, word) = peer_words(s.drop_last());
        if parts_peers(s.last()) {
            (with_word(words, word), Seq::empty())
        } else {
            (words, word.push(s.last()))
        }
    }
}

/// The entries of the list of configured peers.
pub open spec fn peer_entries(s: Seq<char>) -> Seq<Seq<char>> {
    with_word(peer_words(s).0, peer_words(s).1)
}

/// Parts the list of configured peers into its entries, none of them empty.
pub fn peer_tokens(value: &str) -> (r: Vec<String>)
    ensures
        text::texts(r@) == peer_entries(value@),
{
    let chars = chars_of(value);
    let mut words: Vec<String> = Vec::new();
    let mut word = String::new();
    let mut i: usize = 0;
    proof {
        assert(chars@.subrange(0, 0) =~= Seq::<char>::empty());
        assert(text::texts(words@) =~= Seq::<Seq<char>>::empty());
    }
    while i < chars.len()
        invariant
            i <= chars@.len(),
            chars@ == value@,
            (text::texts(words@), word@) == peer_words(chars@.subrange(0, i as int)),
        decreases chars@.len() - i,
    {
        let c = chars[i];
        let ghost before = words@;
        let ghost done = word@;
        proof {
            let t = chars@.subrange(0, i + 1);
            assert(t.drop_last() =~= chars@.subrange(0, i as int));
        }
        if c == ',' || c == ';' || char_is_white(c) {
            if word.as_str().unicode_len() > 0 {
                words.push(word);
                proof {
                    assert(text::texts(words@) =~= text::texts(before).push(done));
                }
            }
            word = String::new();
            proof {
                assert(word@ =~= Seq::<char>::empty());
            }
        } else {
            push_char(&mut word, c);
        }
        i += 1;
    }
    proof {
        assert(chars@.subrange(0, i as int) =~= value@);
    }
    let ghost before = words@;
    let ghost done = word@;
    if word.as_str().unicode_len() > 0 {
        words.push(word);
        proof {
            assert(text::texts(words@) =~= text::texts(before).push(done));
        }
    }
    words
}

/// `peers` after the addresses that one entry resolved to: those of version 4 that
/// are not yet among them, in order.
pub open spec fn with_resolved(peers: Seq<PeerAddr>, resolved: Seq<PeerAddr>) -> Seq<PeerAddr>
    decreases resolved.len(),
{
    if resolved.len() == 0 {
        peers
    } else {
        let before = with_resolved(peers, resolved.drop_last());
        let a = resolved.last();
        if !a.v6 && !before.contains(a) {
            before.push(a)
        } else {
            before
        }
    }
}

/// Adds the addresses that one entry of the configured peers resolved to.
pub fn add_static_peers(peers: &mut Vec<PeerAddr>, resolved: &[PeerAddr])
    ensures
        final(peers)@ == with_resolved(old(peers)@, resolved@),
{
    let mut i: usize = 0;
    proof {
        assert(resolved@.subrange(0, 0) =~= Seq::<PeerAddr>::empty());
    }
    while i < resolved.len()
        invariant
            i <= resolved@.len(),
            peers@ == with_resolved(old(peers)@, resolved@.subrange(0, i as int)),
        decreases resolved@.len() - i,
    {
        let a = resolved[i];
        let mut known = false;
        let mut j: usize = 0;
        while j < peers.len() && !known
            invariant
                j <= peers@.len(),
                known ==> peers@.contains(a),
                !known ==> forall|k: int| 0 <= k < j ==> peers@[k] != a,
            decreases peers@.len() - j + (if known { 0int } else { 1 }),
        {
            if peers[j] == a {
                known = true;
            } else {
                j += 1;
            }
        }
        proof {
            assert(resolved@.subrange(0, i + 1).drop_last() =~= resolved@.subrange(0, i as int));
        }
        if !a.v6 && !known {
            peers.push(a);
        }
        i += 1;
    }
    proof {
        assert(resolved@.subrange(0, i as int) =~= resolved@);
    }
}

/// Eight random bytes, drawn with `ring::rand::SystemRandom` through
/// `SecureRandom::fill`; `None` where that reports an error. Nothing is claimed of
/// the bytes: they rest on chance.
#[verifier::external_body]
fn draw_bytes() -> (r: Option<[u8; 8]>)
{
    let mut bytes = [0u8; 8];
    match SystemRandom::new().fill(&mut bytes) {
        Ok(()) => Some(bytes),
        Err(_) => None,
    }
}

/// The identity that eight random bytes make: their little-endian value, unless
/// that is zero, which stands for no daemon.
pub fn identity_of(drawn: &[u8]) -> (r: Option<u64>)
    requires
        drawn@.len() == 8,
    ensures
        match r {
            Some(id) => id == bytes::le_value(drawn@) && id != 0,
            None => bytes::le_value(drawn@) == 0,
        },
{
    let id: u64 = read_le(drawn, 0, 8);
    proof {
        assert(drawn@.subrange(0, 8) =~= drawn@);
    }
    if id != 0 {
        Some(id)
    } else {
        None
    }
}

/// What drawing an identity came to.
#[derive(Clone, Copy, PartialEq, Eq, Structural, Debug)]
pub enum Draw {
    Identity(u64),
    /// The draw stands for no daemon: draw again.
    Again,
    /// No random bytes can be had.
    Failed,
}

/// Draws the identity of a daemon's lifetime. Identities cross hosts and
/// containers, where process numbers and ports collide, so they are random; zero is
/// never one. What comes back is what `draw_identity` makes of a draw left to chance.
pub fn daemon_node_id() -> (r: Draw)
    ensures
        exists|drawn: Option<Seq<u8>>| #[trigger]
            can_be_drawn(drawn) && r == draw_outcome(drawn),
        r != Draw::Identity(0),
{
    let drawn = draw_bytes();
    proof {
        assert(can_be_drawn(
            match drawn {
                Some(b) => Some(b@),
                None => None,
            },
        ));
    }
    draw_identity(drawn)
}

/// What a draw of eight bytes comes to, or one that failed: the little-endian value of
/// the bytes, unless that is zero.
pub open spec fn draw_outcome(drawn: Option<Seq<u8>>) -> Draw {
    match drawn {
        Some(b) => if bytes::le_value(b) == 0 {
            Draw::Again
        } else {
            Draw::Identity(bytes::le_value(b) as u64)
        },
        None => Draw::Failed,
    }
}

/// What a draw comes to: an identity, a draw to be made again, or a failure.
pub fn draw_identity(drawn: Option<[u8; 8]>) -> (r: Draw)
    ensures
        r == draw_outcome(
            match drawn {
                Some(b) => Some(b@),
                None => None,
            },
        ),
        r != Draw::Identity(0),
{
    match drawn {
        Some(b) => match identity_of(b.as_slice()) {
            Some(id) => Draw::Identity(id),
            None => Draw::Again,
        },
        None => Draw::Failed,
    }
}

/// Whether this can be what comes of drawing eight bytes.
pub open spec fn can_be_drawn(drawn: Option<Seq<u8>>) -> bool {
    drawn matches Some(b) ==> b.len() == 8
}

/// The ports of a range are those between its ends but the one that multicast uses, in
/// ascending order and each once.
pub proof fn law_ports_between_exactly(start: int, end: int, p: u16)
    requires
        0 <= start,
        end <= 65_535,
    ensures
        ports_between(start, end).contains(p) <==> start <= p <= end && p != 7403,
        forall|i: int, j: int|
            0 <= i < j < ports_between(start, end).len() ==> ports_between(start, end)[i]
                < ports_between(start, end)[j],
        ports_between(start, end).len() > 0 ==> ports_between(start, end).last() <= end,
    decreases end - start + 1,
{
    if start <= end {
        let rest = ports_between(start, end - 1);
        let all = ports_between(start, end);
        law_ports_between_exactly(start, end - 1, p);
        if rest.contains(p) {
            let k = choose|k: int| 0 <= k < rest.len() && rest[k] == p;
            assert(all[k] == p);
        }
        if all.contains(p) && !rest.contains(p) {
            let k = choose|k: int| 0 <= k < all.len() && all[k] == p;
            if k < rest.len() {
                assert(rest[k] == p);
            }
        }
        if p == end && p != 7403 {
            assert(all[rest.len() as int] == p);
        }
        assert forall|i: int, j: int| 0 <= i < j < all.len() implies all[i] < all[j] by {
            if j == rest.len() {
                if i < rest.len() - 1 {
                    assert(rest[i] < rest[rest.len() - 1]);
                }
            }
        }
    }
}

/// Without settings the daemon tries the ports from 7402 to 7420 but 7403. A port that
/// is set, other than zero, is tried alone, whatever range is set beside it.
pub proof fn law_ports_that_are_tried(n: nat, range: Option<Seq<char>>, p: u16)
    requires
        n <= 65_535,
    ensures
        chosen_ports(None, None).contains(p) <==> 7402 <= p <= 7420 && p != 7403,
        n != 0 ==> chosen_ports(Some(text::decimal(n)), range) == seq![n as u16],
        chosen_ports(Some(text::decimal(0)), range) == chosen_ports(None, range),
        range matches Some(r) ==> (port_range(r) is None ==> chosen_ports(None, range)
            == chosen_ports(None, None)),
        range matches Some(r) ==> (port_range(r) is Some ==> chosen_ports(None, range)
            == port_range(r)->0),
{
    law_ports_between_exactly(7402, 7420, p);
    lemma_number_is_plain(n);
    lemma_number_is_plain(0);
    text::law_decimal_round_trip(n, 65_535);
    text::law_decimal_round_trip(0, 65_535);
}

proof fn lemma_number_is_plain(n: nat)
    ensures
        !text::decimal(n).contains('-'),
        text::trimmed(text::decimal(n)) == text::decimal(n),
{
    text::lemma_decimal_round_trip(n);
    let s = text::decimal(n);
    if s.contains('-') {
        let k = choose|k: int| 0 <= k < s.len() && s[k] == '-';
        assert('0' <= s[k] <= '9');
    }
    assert('0' <= s[0] <= '9');
    assert('0' <= s[s.len() - 1] <= '9');
    assert(text::trim_start(s) == s);
    assert(text::trim_end(s) == s);
}

/// A range that is written down stands for its ports, at most the first 1024 of them; one
/// that starts at zero, or ends before it starts, or holds the port of multicast alone,
/// stands for none.
pub proof fn law_port_range_is_read_back(a: nat, b: nat)
    requires
        a <= 65_535,
        b <= 65_535,
    ensures
        ({
            let r = port_range(text::decimal(a) + seq!['-'] + text::decimal(b));
            let all = ports_between(a as int, b as int);
            &&& r is None <==> a == 0 || b < a || (a == 7403 && b == 7403)
            &&& r matches Some(ports) ==> 0 < ports.len() <= 1024 && ports == all.subrange(
                0,
                ports.len() as int,
            ) && (ports.len() < 1024 ==> ports == all)
        }),
{
    let s = text::decimal(a) + seq!['-'] + text::decimal(b);
    let n = text::decimal(a).len() as int;
    lemma_number_is_plain(a);
    lemma_number_is_plain(b);
    text::law_places_of_a_character(s, '-');
    assert(s[n] == '-');
    let dash = text::first_index(s, '-')->0;
    if dash < n {
        assert(text::decimal(a)[dash] == '-');
    }
    assert(s.subrange(0, n) =~= text::decimal(a));
    assert(s.subrange(n + 1, s.len() as int) =~= text::decimal(b));
    text::law_decimal_round_trip(a, 65_535);
    text::law_decimal_round_trip(b, 65_535);
    let all = ports_between(a as int, b as int);
    if 0 < a <= b {
        law_ports_between_exactly(a as int, b as int, a as u16);
        law_ports_between_exactly(a as int, b as int, b as u16);
        if all.len() == 0 {
            assert(!all.contains(a as u16));
            assert(!all.contains(b as u16));
        }
        if a == 7403 && b == 7403 {
            if all.len() > 0 {
                law_ports_between_exactly(a as int, b as int, all[0]);
                assert(all.contains(all[0]));
            }
        }
        assert(all.subrange(0, all.len() as int) =~= all);
    }
}

/// An option changes what it is for and nothing else: a port, the ports to try, or the
/// process file.
pub proof fn law_options_change_their_own(cfg: ConfigView, n: nat, value: Seq<char>)
    requires
        n <= 65_535,
    ensures
        with_option(cfg, "--port"@, text::decimal(n)) == (ConfigView {
            port: n as u16,
            port_candidates: seq![n as u16],
            ..cfg
        }),
        with_option(cfg, "--pid-file"@, value) == (ConfigView { pid_file: value, ..cfg }),
        port_range(value) matches Some(ports) ==> with_option(cfg, "--port-range"@, value) == (
        ConfigView { port: ports[0], port_candidates: ports, ..cfg }),
        port_range(value) is None ==> with_option(cfg, "--port-range"@, value) == cfg,
        text::unsigned_value(value, 65_535) is None ==> with_option(cfg, "--port"@, value) == cfg,
{
    reveal_strlit("--port");
    reveal_strlit("--port-range");
    reveal_strlit("--pid-file");
    assert("--port"@.len() == 6 && "--port-range"@.len() == 12 && "--pid-file"@.len() == 10);
    text::law_decimal_round_trip(n, 65_535);
}

/// The daemon starts with the first of the ports to try, its usual process file, and in
/// the background; it runs where no argument says otherwise, and an argument that it
/// does not know stops it.
pub proof fn law_arguments_decide(args: Seq<String>, i: int, cfg: ConfigView, candidates: Seq<u16>)
    requires
        0 <= i,
    ensures
        i >= args.len() ==> launch(args, i, cfg) == LaunchView::Run(cfg),
        i < args.len() && args[i]@ == "--help"@ ==> launch(args, i, cfg) == LaunchView::Help,
        i < args.len() && args[i]@ == "--status"@ ==> launch(args, i, cfg) == LaunchView::Status(
            cfg.pid_file,
        ),
        i < args.len() && args[i]@.len() == 0 ==> launch(args, i, cfg) == LaunchView::Unknown(
            args[i]@,
        ),
        i + 1 == args.len() && args[i]@ == "--foreground"@ ==> launch(args, i, cfg)
            == LaunchView::Run(ConfigView { foreground: true, ..cfg }),
        i + 1 == args.len() && args[i]@ == "--port"@ ==> launch(args, i, cfg) == LaunchView::Run(
            cfg,
        ),
        i + 2 == args.len() && args[i]@ == "--pid-file"@ ==> launch(args, i, cfg)
            == LaunchView::Run(ConfigView { pid_file: args[i + 1]@, ..cfg }),
        candidates.len() > 0 ==> initial_config(candidates).port == candidates[0],
        candidates.len() == 0 ==> initial_config(candidates).port == 7402,
        initial_config(candidates).port_candidates == candidates,
        !initial_config(candidates).foreground,
{
    reveal_strlit("--foreground");
    reveal_strlit("--port");
    reveal_strlit("--port-range");
    reveal_strlit("--pid-file");
    reveal_strlit("--status");
    reveal_strlit("--help");
    assert("--foreground"@.len() == 12 && "--port-range"@.len() == 12);
    assert("--foreground"@[2] == 'f' && "--port-range"@[2] == 'p');
    assert("--port"@.len() == 6 && "--help"@.len() == 6);
    assert("--port"@[2] == 'p' && "--help"@[2] == 'h');
    assert("--pid-file"@.len() == 10 && "--status"@.len() == 8);
    reveal_with_fuel(launch, 2);
    if i + 2 == args.len() && args[i]@ == "--pid-file"@ {
        assert(launch(args, i + 2, with_option(cfg, "--pid-file"@, args[i + 1]@))
            == LaunchView::Run(with_option(cfg, "--pid-file"@, args[i + 1]@)));
    }
}

/// The process number that is written into a process file is read back from it.
pub proof fn law_pid_file_round_trip(pid: u32)
    ensures
        pid_of_text(text::decimal(pid as nat) + seq!['\n']) == Some(pid as nat),
{
    let d = text::decimal(pid as nat);
    let s = d + seq!['\n'];
    lemma_number_is_plain(pid as nat);
    text::lemma_decimal_round_trip(pid as nat);
    assert('0' <= d[0] <= '9');
    assert(s[0] == d[0]);
    assert(text::trim_start(s) == s);
    assert(s.drop_last() =~= d);
    assert(text::is_white('\n'));
    assert('0' <= d[d.len() - 1] <= '9');
    assert(text::trim_end(d) == d);
    assert(text::trim_end(s) == d);
    text::law_decimal_round_trip(pid as nat, u32::MAX as nat);
}

proof fn lemma_words_behind(s: Seq<char>, c: char, t: Seq<char>)
    requires
        parts_peers(c),
    ensures
        peer_words(s.push(c) + t).0 == peer_entries(s) + peer_words(t).0,
        peer_words(s.push(c) + t).1 == peer_words(t).1,
    decreases t.len(),
{
    let all = s.push(c) + t;
    if t.len() == 0 {
        assert(all =~= s.push(c));
        assert(all.drop_last() =~= s);
        assert(peer_entries(s) + peer_words(t).0 =~= peer_entries(s));
    } else {
        lemma_words_behind(s, c, t.drop_last());
        assert(all.drop_last() =~= s.push(c) + t.drop_last());
        assert(peer_words(all).0 =~= peer_entries(s) + peer_words(t).0);
    }
}

proof fn lemma_one_word(w: Seq<char>)
    requires
        forall|i: int| 0 <= i < w.len() ==> !parts_peers(#[trigger] w[i]),
    ensures
        peer_words(w).0.len() == 0,
        peer_words(w).1 == w,
    decreases w.len(),
{
    if w.len() > 0 {
        let init = w.drop_last();
        assert forall|i: int| 0 <= i < init.len() implies !parts_peers(#[trigger] init[i]) by {
            assert(init[i] == w[i]);
        }
        lemma_one_word(init);
        assert(!parts_peers(w[w.len() - 1]));
        assert(init.push(w.last()) =~= w);
    }
}

/// The list of configured peers is parted by commas, semicolons and white space: what
/// stands on either side of one are its entries, a word without one is one entry, and
/// nothing between two is none.
pub proof fn law_peers_are_parted(s: Seq<char>, c: char, t: Seq<char>, w: Seq<char>)
    requires
        c == ',' || c == ';' || c == ' ' || c == '\t' || c == '\n',
        forall|i: int|
            0 <= i < w.len() ==> #[trigger] w[i] != ',' && w[i] != ';' && !text::is_white(w[i]),
    ensures
        peer_entries(s.push(c) + t) == peer_entries(s) + peer_entries(t),
        w.len() > 0 ==> peer_entries(w) == seq![w],
        w.len() == 0 ==> peer_entries(w).len() == 0,
{
    assert(parts_peers(c));
    lemma_words_behind(s, c, t);
    assert(peer_entries(s.push(c) + t) =~= peer_entries(s) + peer_entries(t));
    assert forall|i: int| 0 <= i < w.len() implies !parts_peers(#[trigger] w[i]) by {}
    lemma_one_word(w);
    if w.len() > 0 {
        assert(peer_entries(w) =~= seq![w]);
    }
}

/// The peers that entries resolve to are taken in once each, those of version 4 only,
/// behind those that are there.
pub proof fn law_resolved_peers_exactly(
    peers: Seq<PeerAddr>,
    resolved: Seq<PeerAddr>,
    a: PeerAddr,
)
    ensures
        with_resolved(peers, resolved).contains(a) <==> peers.contains(a) || (resolved.contains(a)
            && !a.v6),
        peers.len() <= with_resolved(peers, resolved).len(),
        with_resolved(peers, resolved).subrange(0, peers.len() as int) == peers,
        peers.no_duplicates() ==> with_resolved(peers, resolved).no_duplicates(),
    decreases resolved.len(),
{
    if resolved.len() == 0 {
        assert(peers.subrange(0, peers.len() as int) =~= peers);
    } else {
        let init = resolved.drop_last();
        let prev = with_resolved(peers, init);
        let all = with_resolved(peers, resolved);
        law_resolved_peers_exactly(peers, init, a);
        if prev.contains(a) {
            let k = choose|k: int| 0 <= k < prev.len() && prev[k] == a;
            assert(all[k] == a);
        }
        if init.contains(a) {
            let k = choose|k: int| 0 <= k < init.len() && init[k] == a;
            assert(resolved[k] == a);
        }
        if a == resolved.last() {
            assert(resolved[resolved.len() - 1] == a);
            if !a.v6 && !prev.contains(a) {
                assert(all[prev.len() as int] == a);
            }
        } else if resolved.contains(a) {
            let k = choose|k: int| 0 <= k < resolved.len() && resolved[k] == a;
            assert(init[k] == a);
        }
        if all.contains(a) && !prev.contains(a) {
            let k = choose|k: int| 0 <= k < all.len() && all[k] == a;
            if k < prev.len() {
                assert(prev[k] == a);
            }
        }
        assert(all.subrange(0, peers.len() as int) =~= prev.subrange(0, peers.len() as int));
    }
}

/// The ports of a list are printed in order, with a comma and a blank between two.
pub proof fn law_port_list_in_order(ports: Seq<u16>, p: u16)
    ensures
        port_list(seq![p]) == text::decimal(p as nat),
        ports.len() > 0 ==> port_list(ports.push(p)) == port_list(ports) + seq![',', ' ']
            + text::decimal(p as nat),
        port_list(Seq::empty()).len() == 0,
{
    reveal_strlit(", ");
    assert(", "@ =~= seq![',', ' ']);
    assert(ports.push(p).drop_last() =~= ports);
}

/// A draw is the identity that its bytes spell, the lowest first, unless they are all
/// zero: then it is drawn again, and zero is never an identity.
pub proof fn law_zero_is_no_identity(b: Seq<u8>)
    requires
        b.len() == 8,
    ensures
        draw_outcome(None) is Failed,
        draw_outcome(Some(b)) !is Failed,
        draw_outcome(Some(b)) is Again <==> bytes::le_value(b) == 0,
        draw_outcome(Some(b)) matches Draw::Identity(id) ==> id != 0 && id == bytes::le_value(b),
{
    bytes::lemma_le_value_bound(b);
    bytes::lemma_byte_range_values();
}

/// Arguments are taken one after the other: what was set before one stays set behind it,
/// an option takes the argument behind it, and an argument that is none of the options
/// ends the reading.
pub proof fn law_arguments_in_order(args: Seq<String>, i: int, cfg: ConfigView)
    requires
        0 <= i < args.len(),
    ensures
        args[i]@ == "--foreground"@ ==> launch(args, i, cfg) == launch(
            args,
            i + 1,
            ConfigView { foreground: true, ..cfg },
        ),
        (args[i]@ == "--port"@ || args[i]@ == "--port-range"@ || args[i]@ == "--pid-file"@) && i + 1
            < args.len() ==> launch(args, i, cfg) == launch(
            args,
            i + 2,
            with_option(cfg, args[i]@, args[i + 1]@),
        ),
        (args[i]@ == "--port"@ || args[i]@ == "--port-range"@ || args[i]@ == "--pid-file"@) && i + 1
            == args.len() ==> launch(args, i, cfg) == LaunchView::Run(cfg),
        args[i]@ != "--foreground"@ && args[i]@ != "--port"@ && args[i]@ != "--port-range"@
            && args[i]@ != "--pid-file"@ && args[i]@ != "--status"@ && args[i]@ != "--help"@
            ==> launch(args, i, cfg) == LaunchView::Unknown(args[i]@),
{
    reveal_strlit("--foreground");
    reveal_strlit("--port");
    reveal_strlit("--port-range");
    reveal_strlit("--pid-file");
    assert("--foreground"@.len() == 12 && "--port"@.len() == 6 && "--port-range"@.len() == 12
        && "--pid-file"@.len() == 10);
    assert("--foreground"@[2] != "--port-range"@[2]);
}

/// White space around a port, or around either end of a range of ports, does not count.
pub proof fn law_white_space_around_ports(
    v: Seq<char>,
    n: nat,
    low: Seq<char>,
    high: Seq<char>,
    a: nat,
    b: nat,
    range: Option<Seq<char>>,
)
    requires
        0 < n <= 65_535,
        text::trimmed(v) == text::decimal(n),
        0 < a <= b <= 65_535,
        !low.contains('-'),
        text::trimmed(low) == text::decimal(a),
        text::trimmed(high) == text::decimal(b),
    ensures
        chosen_ports(Some(v), range) == seq![n as u16],
        port_range(low.push('-') + high) == port_range(
            text::decimal(a) + seq!['-'] + text::decimal(b),
        ),
{
    let s = low.push('-') + high;
    text::law_decimal_round_trip(n, 65_535);
    text::law_decimal_round_trip(a, 65_535);
    text::law_decimal_round_trip(b, 65_535);
    text::law_places_of_a_character(s, '-');
    assert(s[low.len() as int] == '-');
    let d = text::first_index(s, '-')->0;
    if d < low.len() {
        assert(low[d] == '-');
    }
    assert(s.subrange(0, d) =~= low);
    assert(s.subrange(d + 1, s.len() as int) =~= high);
    let t = text::decimal(a) + seq!['-'] + text::decimal(b);
    let m = text::decimal(a).len() as int;
    lemma_number_is_plain(a);
    lemma_number_is_plain(b);
    text::law_places_of_a_character(t, '-');
    assert(t[m] == '-');
    let e = text::first_index(t, '-')->0;
    if e < m {
        assert(text::decimal(a)[e] == '-');
    }
    assert(t.subrange(0, m) =~= text::decimal(a));
    assert(t.subrange(m + 1, t.len() as int) =~= text::decimal(b));
}

} // verus!
