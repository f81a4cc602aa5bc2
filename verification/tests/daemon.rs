use axon_core::daemon::peer_discovery::HelloDaemon;
use axon_core::daemon::peer_sync::{encode_sync_request, encode_sync_request_with_nodes};
use axon_core::daemon::peers::{
    announce_key, bootstrap_step, finish_inbound, hello_due, next_hello_generation, receive_control,
    receive_hello, record_peer_hello, shared_domains, sorted_domains, sync_allowed, Bootstrap,
    ControlStep, HelloStep, KnownPeers,
};
use axon_core::daemon::startup::{
    add_static_peers, check_pid, daemon_node_id, daemon_port_candidates_from_env,
    default_daemon_port_candidates, draw_identity, identity_of, no_port_text, parse_args,
    parse_port_range, peer_tokens, pid_file_text, pid_in_file, running_daemon, Config, Draw, Launch,
};
use axon_core::qkd::keys::{
    decode_key_ack, decode_key_announcement, encode_key_ack, encode_key_announcement,
    encode_key_error, QkdKeyAnnouncement, QkdKeyMaterial,
};
use axon_core::qkd::manager::QkdDaemonManager;
use axon_core::qkd::store::QkdKeyStore;
use axon_core::quic_transport::PeerAddr;
use axon_core::security_mode::SecurityMode;

fn v4(a: u8, b: u8, c: u8, d: u8, port: u16) -> PeerAddr {
    PeerAddr {
        v6: false,
        ip: u32::from_be_bytes([a, b, c, d]) as u128,
        port,
        flow: 0,
        scope: 0,
    }
}

#[test]
fn peer_hello_only_syncs_new_topology_generations() {
    let daemon_id = 42;
    let addr_a = v4(192, 168, 1, 10, 7402);
    let addr_b = v4(10, 0, 0, 10, 7402);
    let started = 1_000;
    let mut peers = KnownPeers::new();

    assert!(record_peer_hello(
        &mut peers,
        daemon_id,
        addr_a,
        1,
        &[],
        started
    ));
    assert!(!record_peer_hello(
        &mut peers,
        daemon_id,
        addr_b,
        1,
        &[],
        started + 10
    ));
    assert!(!record_peer_hello(
        &mut peers,
        daemon_id,
        addr_a,
        0,
        &[],
        started + 20
    ));
    assert_eq!(peers.get(daemon_id).unwrap().generation, 1);
    assert!(record_peer_hello(
        &mut peers,
        daemon_id,
        addr_a,
        1,
        &[90],
        started + 25
    ));
    assert!(!record_peer_hello(
        &mut peers,
        daemon_id,
        addr_b,
        1,
        &[90],
        started + 27
    ));
    assert!(record_peer_hello(
        &mut peers,
        daemon_id,
        addr_b,
        2,
        &[90],
        started + 30
    ));
    assert_eq!(peers.get(daemon_id).unwrap().generation, 2);
    assert_eq!(peers.get(daemon_id).unwrap().addr, addr_b);
    assert_eq!(peers.get(daemon_id).unwrap().seen, started + 30);
}

fn drawn() -> u64 {
    loop {
        match daemon_node_id() {
            Draw::Identity(id) => return id,
            Draw::Again => {}
            Draw::Failed => panic!("generate AXON daemon identity"),
        }
    }
}

#[test]
fn daemon_identity_is_unique_across_isolated_instances() {
    let role_one = drawn();
    let role_two = drawn();
    assert_ne!(role_one, role_two);
    assert_ne!(role_one, 0);
    assert_ne!(role_two, 0);
}

#[test]
fn an_identity_is_the_little_endian_value_of_its_bytes() {
    assert_eq!(identity_of(&[1, 2, 0, 0, 0, 0, 0, 0]), Some(0x0201));
    assert_eq!(identity_of(&[0; 8]), None);
}

#[test]
fn a_draw_is_an_identity_unless_it_is_zero_or_failed() {
    assert_eq!(
        draw_identity(Some([1, 2, 0, 0, 0, 0, 0, 0])),
        Draw::Identity(0x0201)
    );
    assert_eq!(
        draw_identity(Some([0, 0, 0, 0, 0, 0, 0, 0x80])),
        Draw::Identity(0x8000_0000_0000_0000)
    );
    assert_eq!(draw_identity(Some([0xff; 8])), Draw::Identity(u64::MAX));
    assert_eq!(draw_identity(Some([0; 8])), Draw::Again);
    assert_eq!(draw_identity(None), Draw::Failed);
}

#[test]
fn default_ports_leave_the_multicast_port_out() {
    let ports = default_daemon_port_candidates();
    assert_eq!(ports[0], 7402);
    assert_eq!(ports[1], 7404);
    assert_eq!(ports[ports.len() - 1], 7420);
    assert_eq!(ports.len(), 18);
}

#[test]
fn port_ranges_are_read() {
    assert_eq!(parse_port_range("7402-7405"), Some(vec![7402, 7404, 7405]));
    assert_eq!(parse_port_range(" 5 - 5 "), Some(vec![5]));
    assert_eq!(parse_port_range("7403-7403"), None);
    assert_eq!(parse_port_range("0-4"), None);
    assert_eq!(parse_port_range("9-4"), None);
    assert_eq!(parse_port_range("1-65536"), None);
    assert_eq!(parse_port_range("80"), None);
    assert_eq!(parse_port_range("1-65535").unwrap().len(), 1024);
}

#[test]
fn ports_are_chosen_from_the_settings() {
    let c = daemon_port_candidates_from_env(Some(" 9000 "), Some("1-2"));
    assert_eq!(c.ports, vec![9000]);
    assert!(!c.port_ignored && !c.range_ignored);
    let c = daemon_port_candidates_from_env(Some("0"), Some("1-2"));
    assert_eq!(c.ports, vec![1, 2]);
    assert!(c.port_ignored && !c.range_ignored);
    let c = daemon_port_candidates_from_env(None, Some("x"));
    assert_eq!(c.ports, default_daemon_port_candidates());
    assert!(!c.port_ignored && c.range_ignored);
}

fn args(list: &[&str]) -> Vec<String> {
    let mut v = vec!["axon_daemon".to_string()];
    v.extend(list.iter().map(|s| s.to_string()));
    v
}

fn run(list: &[&str]) -> Config {
    match parse_args(&args(list), vec![7402, 7404]) {
        Launch::Run(c) => c,
        _ => panic!("not a run"),
    }
}

#[test]
fn the_command_line_is_read() {
    let c = run(&[]);
    assert_eq!(c.port, 7402);
    assert_eq!(c.port_candidates, vec![7402, 7404]);
    assert_eq!(c.pid_file, "/tmp/axon_daemon.pid");
    assert!(!c.foreground);
    let c = run(&["--foreground", "--port", "81", "--pid-file", "/p"]);
    assert_eq!(c.port, 81);
    assert_eq!(c.port_candidates, vec![81]);
    assert_eq!(c.pid_file, "/p");
    assert!(c.foreground);
    let c = run(&["--port-range", "5-6"]);
    assert_eq!(c.port, 5);
    assert_eq!(c.port_candidates, vec![5, 6]);
    // A value that cannot be read is passed over, and so is a missing one.
    let c = run(&["--port", "x", "--foreground"]);
    assert_eq!(c.port, 7402);
    assert!(c.foreground);
    assert_eq!(run(&["--port"]).port, 7402);
    match parse_args(&args(&["--foreground"]), vec![]) {
        Launch::Run(c) => assert_eq!(c.port, 7402),
        _ => panic!("not a run"),
    }
}

#[test]
fn some_flags_decide_alone() {
    assert!(matches!(
        parse_args(&args(&["--pid-file", "/q", "--status", "--bad"]), vec![]),
        Launch::Status(p) if p == "/q"
    ));
    assert!(matches!(
        parse_args(&args(&["--help", "--bad"]), vec![]),
        Launch::Help
    ));
    assert!(matches!(
        parse_args(&args(&["--bad"]), vec![]),
        Launch::Unknown(f) if f == "--bad"
    ));
}

#[test]
fn process_files_are_judged() {
    assert_eq!(pid_in_file(" 42\n"), Some(42));
    assert_eq!(pid_in_file("x"), None);
    assert_eq!(running_daemon(Some(42), true), Some(42));
    assert_eq!(running_daemon(Some(42), false), None);
    assert_eq!(running_daemon(Some(0), true), None);
    assert_eq!(
        check_pid(Some(42), true),
        Err("daemon already running (PID 42)".to_string())
    );
    assert_eq!(check_pid(Some(42), false), Ok(()));
    assert_eq!(check_pid(None, true), Ok(()));
    assert_eq!(pid_file_text(7), "7\n");
    assert_eq!(
        no_port_text(&[7402, 7404], "UDP: busy"),
        format!("no daemon port available in {:?}: UDP: busy", [7402, 7404])
    );
    assert_eq!(
        no_port_text(&[], ""),
        "no daemon port available in []: "
    );
}

#[test]
fn configured_peers_are_parted_and_kept_once() {
    assert_eq!(
        peer_tokens(" a:1,b:2;;c:3\td:4 "),
        vec!["a:1", "b:2", "c:3", "d:4"]
    );
    assert!(peer_tokens(" ,; ").is_empty());
    let mut peers = Vec::new();
    let six = PeerAddr {
        v6: true,
        ip: 1,
        port: 2,
        flow: 0,
        scope: 3,
    };
    add_static_peers(&mut peers, &[v4(1, 2, 3, 4, 5), six, v4(1, 2, 3, 4, 5)]);
    add_static_peers(&mut peers, &[v4(1, 2, 3, 4, 6)]);
    assert_eq!(peers, vec![v4(1, 2, 3, 4, 5), v4(1, 2, 3, 4, 6)]);
}

#[test]
fn domains_are_sorted_and_shared() {
    assert_eq!(sorted_domains(&[5, 1, 3, 1]), vec![1, 1, 3, 5]);
    assert_eq!(shared_domains(&[9, 3, 5], &[1, 3, 9]), vec![9, 3]);
    assert!(shared_domains(&[1], &[]).is_empty());
}

#[test]
fn greetings_are_sent_in_time_and_on_change() {
    assert!(!hello_due(499, false));
    assert!(hello_due(500, false));
    assert!(hello_due(0, true));
    assert_eq!(next_hello_generation(4, false), 4);
    assert_eq!(next_hello_generation(4, true), 5);
    assert_eq!(next_hello_generation(u64::MAX, true), 1);
}

fn hello(daemon_id: u64, generation: u64, domains: Vec<u32>) -> HelloDaemon {
    HelloDaemon {
        daemon_id,
        quic_port: 7410,
        domains,
        generation,
        qkd_sae_id: None,
        security_mode: SecurityMode::Classic,
    }
}

#[test]
fn a_greeting_leads_to_an_exchange_once() {
    let mut peers = KnownPeers::new();
    let src = v4(10, 0, 0, 1, 9999);
    let mut step = |h: &HelloDaemon, ours: &[u32], now| {
        receive_hello(&mut peers, 1, SecurityMode::Classic, None, ours, h, src, now)
    };
    assert!(matches!(step(&hello(1, 1, vec![0]), &[0], 1), HelloStep::Own));
    let mut other = hello(2, 1, vec![0]);
    other.security_mode = SecurityMode::Qkd;
    assert!(matches!(step(&other, &[0], 1), HelloStep::OtherProfile));
    assert!(matches!(step(&hello(2, 1, vec![7]), &[0], 1), HelloStep::Apart));
    match step(&hello(2, 2, vec![7, 0]), &[4, 0], 2) {
        HelloStep::Sync { addr, domains } => {
            assert_eq!(addr, v4(10, 0, 0, 1, 7410));
            assert_eq!(domains, vec![0]);
        }
        _ => panic!("no exchange"),
    }
    assert!(matches!(
        step(&hello(2, 2, vec![7, 0]), &[0, 4], 3),
        HelloStep::NothingNew
    ));
    assert!(matches!(
        step(&hello(2, 2, vec![7, 0]), &[0], 4),
        HelloStep::Sync { .. }
    ));
}

#[test]
fn silent_daemons_become_stale() {
    let mut peers = KnownPeers::new();
    record_peer_hello(&mut peers, 1, v4(1, 1, 1, 1, 1), 1, &[], 0);
    record_peer_hello(&mut peers, 2, v4(1, 1, 1, 1, 1), 1, &[], 5_000);
    assert!(peers.stale(10_000).is_empty());
    assert_eq!(peers.stale(10_001), vec![1]);
    let mut both = peers.stale(20_000);
    both.sort();
    assert_eq!(both, vec![1, 2]);
    peers.forget(1);
    assert_eq!(peers.stale(20_000), vec![2]);
    assert!(peers.get(1).is_none());
}

fn manager(sae: &str) -> QkdDaemonManager {
    QkdDaemonManager::new(QkdKeyStore::create(sae, 1).unwrap(), sae.to_string())
}

fn key(id: &str) -> QkdKeyMaterial {
    QkdKeyMaterial {
        key_id: id.to_string(),
        key: [3; 32],
    }
}

#[test]
fn the_lower_identity_announces_the_key() {
    let m = manager("sae-a");
    assert!(matches!(bootstrap_step(None, 1, 2, None, None), Bootstrap::Connect));
    assert!(matches!(
        bootstrap_step(Some(&m), 1, 2, Some("sae-b"), Some("sae-c")),
        Bootstrap::Announce(s) if s == "sae-b"
    ));
    assert!(matches!(
        bootstrap_step(Some(&m), 1, 2, None, Some("sae-c")),
        Bootstrap::Announce(s) if s == "sae-c"
    ));
    assert!(matches!(
        bootstrap_step(Some(&m), 1, 2, None, None),
        Bootstrap::NoIdentity
    ));
    assert!(matches!(
        bootstrap_step(Some(&m), 2, 1, Some("sae-b"), None),
        Bootstrap::Wait
    ));
    let mut m = m;
    m.install_inbound(2, "sae-b", Ok(key("k"))).unwrap();
    assert!(matches!(
        bootstrap_step(Some(&m), 1, 2, None, None),
        Bootstrap::Connect
    ));
    let wire = announce_key(&m, 7, "k").unwrap();
    let a = decode_key_announcement(&wire).unwrap();
    assert_eq!(a.daemon_id, 7);
    assert_eq!(a.sae_id, "sae-a");
    assert_eq!(a.key_id, "k");
    assert!(announce_key(&m, 7, "").is_err());
}

#[test]
fn an_announced_key_is_fetched_and_accepted() {
    let mut peers = KnownPeers::new();
    record_peer_hello(&mut peers, 7, v4(1, 1, 1, 1, 1), 1, &[], 0);
    let mut bob = manager("sae-b");
    let wire = announce_key(&manager("sae-a"), 7, "k").unwrap();
    let a = match receive_control(&mut peers, &mut bob, &wire) {
        ControlStep::Fetch(a) => a,
        _ => panic!("not fetched"),
    };
    assert!(peers.get(7).is_some());
    let installed = bob.install_inbound(a.daemon_id, &a.sae_id, Ok(key(&a.key_id)));
    let reply = finish_inbound(&mut peers, &a, installed);
    assert_eq!(decode_key_ack(&reply), Ok("k".to_string()));
    assert!(peers.get(7).is_none());
    // The same announcement again needs no fetch.
    assert!(matches!(
        receive_control(&mut peers, &mut bob, &wire),
        ControlStep::Reply(r) if decode_key_ack(&r) == Ok("k".to_string())
    ));
    let reply = finish_inbound(&mut peers, &a, Err("no key".to_string()));
    assert_eq!(reply, encode_key_error("no key"));
}

#[test]
fn an_own_announcement_is_ignored() {
    let mut peers = KnownPeers::new();
    let mut m = manager("sae-a");
    let wire = encode_key_announcement(&QkdKeyAnnouncement {
        daemon_id: 1,
        sae_id: "sae-a".into(),
        key_id: "k".into(),
    })
    .unwrap();
    assert!(matches!(
        receive_control(&mut peers, &mut m, &wire),
        ControlStep::Ignore
    ));
    assert!(matches!(
        receive_control(&mut peers, &mut m, &wire[..5]),
        ControlStep::Reply(r) if r == encode_key_error("invalid QKD key announcement")
    ));
    assert!(matches!(
        receive_control(&mut peers, &mut m, &[0x99]),
        ControlStep::Ignore
    ));
    assert!(matches!(
        receive_control(&mut peers, &mut m, &[]),
        ControlStep::Ignore
    ));
}

#[test]
fn an_acceptance_establishes_the_session() {
    let mut peers = KnownPeers::new();
    record_peer_hello(&mut peers, 9, v4(1, 1, 1, 1, 1), 1, &[], 0);
    let mut alice = manager("sae-a");
    assert!(alice.install_outbound(9, "sae-b", Ok(key("k"))).is_ok());
    let ack = encode_key_ack("k").unwrap();
    assert!(matches!(
        receive_control(&mut peers, &mut alice, &ack),
        ControlStep::Established { daemon_id: 9, key_id } if key_id == "k"
    ));
    assert!(alice.has_active_session(9));
    assert!(peers.get(9).is_none());
    assert!(matches!(
        receive_control(&mut peers, &mut alice, &encode_key_ack("other").unwrap()),
        ControlStep::Ignore
    ));
    assert!(matches!(
        receive_control(&mut peers, &mut alice, &[0x52]),
        ControlStep::Report(m) if m == "QKD ACK rejected: invalid QKD key ACK"
    ));
    assert!(matches!(
        receive_control(&mut peers, &mut alice, &encode_key_error("down")),
        ControlStep::Report(m) if m == "remote QKD setup failed: down"
    ));
}

#[test]
fn a_request_needs_an_active_session() {
    let mut m = manager("sae-a");
    let named = encode_sync_request_with_nodes(0, 9, &[]);
    let bare = encode_sync_request(0);
    assert!(sync_allowed(SecurityMode::Classic, None, &bare));
    assert!(!sync_allowed(SecurityMode::Qkd, None, &named));
    assert!(!sync_allowed(SecurityMode::Qkd, Some(&m), &named));
    m.install_inbound(9, "sae-b", Ok(key("k"))).unwrap();
    assert!(sync_allowed(SecurityMode::Qkd, Some(&m), &named));
    assert!(!sync_allowed(SecurityMode::Qkd, Some(&m), &bare));
}
