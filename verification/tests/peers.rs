use axon_core::daemon::discovery_shm::{MatchEntry, NodeTableEntry, ShmDiscovery, SlotState};
use axon_core::daemon::graph_sync::{apply_sync_response, remove_silent_daemon};
use axon_core::daemon::peer_discovery::{
    classify_packet, decode_hello_daemon, encode_hello_daemon, non_loopback_ipv4s, HelloDaemon,
    PacketKind,
};
use axon_core::daemon::peer_merge::{
    collect_domain_nodes, handle_sync_payload, merge_remote_nodes,
};
use axon_core::daemon::peer_sync::{
    decode_sync_request, decode_sync_request_push, decode_sync_response, encode_ping, encode_pong,
    encode_sync_request, encode_sync_request_with_nodes, encode_sync_response,
    sync_request_daemon_id, PeerConnection, PeerNodeInfo, PeerTopicInfo, MSG_SYNC_REQUEST,
};
use axon_core::duration::Duration;
use axon_core::security_mode::SecurityMode;

#[test]
fn test_hello_daemon_encode_decode() {
    let hello = HelloDaemon {
        daemon_id: 0x1234,
        quic_port: 7402,
        domains: vec![0, 1, 5],
        generation: 42,
        qkd_sae_id: Some("sae-1".into()),
        security_mode: SecurityMode::Qkd,
    };
    let encoded = encode_hello_daemon(&hello);
    let decoded = decode_hello_daemon(&encoded).unwrap();
    assert_eq!(hello.daemon_id, decoded.daemon_id);
    assert_eq!(hello.quic_port, decoded.quic_port);
    assert_eq!(hello.domains, decoded.domains);
    assert_eq!(hello.generation, decoded.generation);
    assert_eq!(hello.qkd_sae_id, decoded.qkd_sae_id);
    assert_eq!(hello.security_mode, decoded.security_mode);
}

#[test]
fn pre_profile_qkd_hello_decodes_as_classic() {
    let hello = HelloDaemon {
        daemon_id: 1,
        quic_port: 7402,
        domains: vec![7],
        generation: 2,
        qkd_sae_id: Some("sae-old".into()),
        security_mode: SecurityMode::Qkd,
    };
    let mut old = encode_hello_daemon(&hello);
    old.pop();
    assert_eq!(
        decode_hello_daemon(&old).unwrap().security_mode,
        SecurityMode::Classic
    );
}

#[test]
fn test_decode_empty_buffer() {
    assert!(decode_hello_daemon(&[]).is_err());
    assert!(decode_hello_daemon(&[0xDD, 0x00]).is_err());
}

#[test]
fn test_decode_bad_magic() {
    assert!(decode_hello_daemon(&[0x00; 20]).is_err());
}

#[test]
fn test_sync_response_roundtrip() {
    let nodes = vec![PeerNodeInfo {
        node_id: 0x1001,
        domain_id: 0,
        published_topics: vec![PeerTopicInfo {
            hash: 0x42,
            type_hash: 0x100,
            qos_reliability: 1,
            qos_durability: 0,
            qos_history_kind: 1,
            qos_history_depth: 5,
            qos_deadline_sec: 2,
            qos_deadline_nsec: 25,
            qos_lifespan_sec: 9,
            qos_lifespan_nsec: 50,
            qos_liveliness: 1,
            qos_liveliness_lease_sec: 7,
            qos_liveliness_lease_nsec: 75,
            name: "topic_a".into(),
            topic_type: "std_msgs/msg/String".into(),
            node_name: "camera_node".into(),
            node_namespace: "/sensors".into(),
        }],
        subscribed_topics: vec![PeerTopicInfo {
            hash: 0x43,
            type_hash: 0x101,
            qos_reliability: 1,
            qos_durability: 0,
            qos_history_kind: 0,
            qos_history_depth: 0,
            qos_deadline_sec: 3,
            qos_deadline_nsec: 125,
            qos_lifespan_sec: 10,
            qos_lifespan_nsec: 250,
            qos_liveliness: 2,
            qos_liveliness_lease_sec: 8,
            qos_liveliness_lease_nsec: 500,
            name: "topic_b".into(),
            topic_type: "std_msgs/msg/Int32".into(),
            node_name: "consumer_node".into(),
            node_namespace: "/tools".into(),
        }],
        quic_port: 12345,
        quic_addrs: vec![[127, 0, 0, 1], [192, 168, 1, 1]],
        node_name: "my_node".into(),
        node_namespace: "/".into(),
    }];
    let encoded = encode_sync_response(0, &nodes);
    let (dom, decoded) = decode_sync_response(&encoded).unwrap();
    assert_eq!(dom, 0);
    assert_eq!(decoded.len(), 1);
    assert_eq!(decoded[0].node_id, 0x1001);
    assert_eq!(decoded[0].node_name, "my_node");
    assert_eq!(decoded[0].published_topics[0].hash, 0x42);
    assert_eq!(decoded[0].published_topics[0].name, "topic_a");
    assert_eq!(decoded[0].published_topics[0].node_name, "camera_node");
    assert_eq!(decoded[0].published_topics[0].node_namespace, "/sensors");
    assert_eq!(decoded[0].published_topics[0].qos_deadline_sec, 2);
    assert_eq!(decoded[0].published_topics[0].qos_deadline_nsec, 25);
    assert_eq!(decoded[0].published_topics[0].qos_lifespan_sec, 9);
    assert_eq!(decoded[0].published_topics[0].qos_lifespan_nsec, 50);
    assert_eq!(decoded[0].published_topics[0].qos_liveliness, 1);
    assert_eq!(decoded[0].published_topics[0].qos_liveliness_lease_sec, 7);
    assert_eq!(decoded[0].published_topics[0].qos_liveliness_lease_nsec, 75);
    assert_eq!(decoded[0].subscribed_topics[0].name, "topic_b");
    assert_eq!(decoded[0].subscribed_topics[0].node_name, "consumer_node");
    assert_eq!(decoded[0].subscribed_topics[0].node_namespace, "/tools");
    assert_eq!(decoded[0].subscribed_topics[0].qos_deadline_sec, 3);
    assert_eq!(decoded[0].subscribed_topics[0].qos_deadline_nsec, 125);
    assert_eq!(decoded[0].subscribed_topics[0].qos_lifespan_sec, 10);
    assert_eq!(decoded[0].subscribed_topics[0].qos_lifespan_nsec, 250);
    assert_eq!(decoded[0].subscribed_topics[0].qos_liveliness, 2);
    assert_eq!(decoded[0].subscribed_topics[0].qos_liveliness_lease_sec, 8);
    assert_eq!(
        decoded[0].subscribed_topics[0].qos_liveliness_lease_nsec,
        500
    );
    assert_eq!(decoded[0].quic_addrs.len(), 2);
    assert_eq!(decoded[0].quic_addrs[0], [127, 0, 0, 1]);
    assert_eq!(decoded[0].quic_addrs[1], [192, 168, 1, 1]);
}

#[test]
fn test_sync_response_empty() {
    let encoded = encode_sync_response(0, &[]);
    let (dom, decoded) = decode_sync_response(&encoded).unwrap();
    assert_eq!(dom, 0);
    assert!(decoded.is_empty());
}

#[test]
fn test_sync_request_roundtrip() {
    let encoded = encode_sync_request(42);
    let decoded = decode_sync_request(&encoded).unwrap();
    assert_eq!(decoded, 42);
    assert!(decode_sync_request_push(&encoded).unwrap().is_none());
}

#[test]
fn test_sync_request_with_nodes_roundtrip() {
    let nodes = vec![PeerNodeInfo {
        node_id: 0x2001,
        domain_id: 42,
        published_topics: Vec::new(),
        subscribed_topics: Vec::new(),
        quic_port: 17601,
        quic_addrs: vec![[172, 17, 0, 2]],
        node_name: "docker_node".into(),
        node_namespace: "/docker".into(),
    }];
    let encoded = encode_sync_request_with_nodes(42, 0x9abc, &nodes);

    assert_eq!(decode_sync_request(&encoded).unwrap(), 42);
    let (daemon_id, pushed_nodes) = decode_sync_request_push(&encoded).unwrap().unwrap();
    assert_eq!(daemon_id, 0x9abc);
    assert_eq!(pushed_nodes.len(), 1);
    assert_eq!(pushed_nodes[0].node_id, 0x2001);
    assert_eq!(pushed_nodes[0].domain_id, 42);
    assert_eq!(pushed_nodes[0].quic_port, 17601);
    assert_eq!(pushed_nodes[0].quic_addrs, vec![[172, 17, 0, 2]]);
    assert_eq!(pushed_nodes[0].node_name, "docker_node");
    assert_eq!(pushed_nodes[0].node_namespace, "/docker");
}

#[test]
fn sync_request_identity_distinguishes_legacy_and_daemon_pushes() {
    assert_eq!(
        sync_request_daemon_id(&encode_sync_request(42)).unwrap(),
        None
    );

    let request = encode_sync_request_with_nodes(42, 0x9abc, &[]);
    assert_eq!(sync_request_daemon_id(&request).unwrap(), Some(0x9abc));
    assert!(sync_request_daemon_id(&[MSG_SYNC_REQUEST, 0, 0, 0, 0, 1]).is_err());
}

#[test]
fn test_collect_domain_nodes_empty() {
    // This tests the encode/decode logic; integration test covers full flow
    let request = encode_sync_request(0);
    assert_eq!(request.len(), 5);
    assert_eq!(request[0], MSG_SYNC_REQUEST);
}

fn remote_node(node_id: u64) -> PeerNodeInfo {
    PeerNodeInfo {
        node_id,
        domain_id: 42,
        published_topics: vec![PeerTopicInfo {
            hash: 0x55,
            type_hash: 0,
            qos_reliability: 1,
            qos_durability: 0,
            qos_history_kind: 1,
            qos_history_depth: 10,
            qos_deadline_sec: 0,
            qos_deadline_nsec: 0,
            qos_lifespan_sec: 0,
            qos_lifespan_nsec: 0,
            qos_liveliness: 0,
            qos_liveliness_lease_sec: 0,
            qos_liveliness_lease_nsec: 0,
            name: "/remote".into(),
            topic_type: "std_msgs/msg/String".into(),
            node_name: "remote_node".into(),
            node_namespace: "/".into(),
        }],
        subscribed_topics: Vec::new(),
        quic_port: 17400,
        quic_addrs: vec![[192, 168, 1, 20]],
        node_name: "remote_node".into(),
        node_namespace: "/".into(),
    }
}

#[test]
fn repeated_remote_merge_preserves_matches_until_node_disappears() {
    let mut shm = ShmDiscovery::create(8, 1, 1);
    let local_node_id = 0x1001;
    let remote_node_id = 0x2002;
    let daemon_origin = 0x3003;

    {
        let local = &mut shm.node_table[0];
        local.node_id = local_node_id;
        local.domain_id = 42;
        local.state = 2;
    }

    let remote = remote_node(remote_node_id);

    merge_remote_nodes(&mut shm, daemon_origin, &[remote.clone()], 1);
    let original_slot = shm.find_slot_by_node_id(remote_node_id).unwrap();
    {
        let local = &mut shm.node_table[0];
        local.remote_matches[0] = MatchEntry {
            node_id: remote_node_id,
            topic_hash: 0x55,
            port: 17400,
            addr: [192, 168, 1, 20],
        };
        local.match_count = 1;
        local.response_gen = 7;
    }

    merge_remote_nodes(&mut shm, daemon_origin, &[remote], 2);
    assert_eq!(
        shm.find_slot_by_node_id(remote_node_id),
        Some(original_slot),
        "an unchanged remote node must be updated in place"
    );
    assert_eq!(shm.node_table[0].match_count, 1);
    assert_eq!(shm.node_table[0].response_gen, 7);

    merge_remote_nodes(&mut shm, daemon_origin, &[], 3);
    assert!(shm.find_slot_by_node_id(remote_node_id).is_none());
    assert_eq!(shm.node_table[0].match_count, 0);
}

#[test]
fn a_report_that_comes_again_changes_only_when_its_nodes_were_seen() {
    let mut shm = ShmDiscovery::create(4, 1, 1);
    let report = [remote_node(5), remote_node(6)];
    merge_remote_nodes(&mut shm, 9, &report, 10);
    let slots = [5, 6].map(|id| shm.find_slot_by_node_id(id).unwrap());
    let before: Vec<_> = shm
        .node_table
        .iter()
        .map(|e| (e.state, e.node_id, e.node_name, e.response_gen, e.match_count))
        .collect();
    merge_remote_nodes(&mut shm, 9, &report, 20);
    assert_eq!(
        [5, 6].map(|id| shm.find_slot_by_node_id(id).unwrap()),
        slots
    );
    let after: Vec<_> = shm
        .node_table
        .iter()
        .map(|e| (e.state, e.node_id, e.node_name, e.response_gen, e.match_count))
        .collect();
    assert_eq!(after, before);
    for slot in slots {
        assert_eq!(shm.node_table[slot].last_seen_secs, 20);
    }
    assert_eq!(shm.header.generation, 2);
}

#[test]
fn a_report_without_a_sender_is_ignored() {
    let mut shm = ShmDiscovery::create(2, 1, 1);
    merge_remote_nodes(&mut shm, 0, &[remote_node(5)], 1);
    assert_eq!(shm.header.generation, 0);
    assert_eq!(shm.find_slot_by_node_id(5), None);
}

#[test]
fn a_full_table_ends_a_merge() {
    let mut shm = ShmDiscovery::create(1, 1, 1);
    merge_remote_nodes(&mut shm, 9, &[remote_node(5), remote_node(6)], 1);
    assert_eq!(shm.find_slot_by_node_id(5), Some(0));
    assert_eq!(shm.find_slot_by_node_id(6), None);
}

#[test]
fn a_message_of_another_daemon_is_answered() {
    let mut shm = ShmDiscovery::create(4, 1, 1);
    shm.node_table[0].node_id = 3;
    shm.node_table[0].domain_id = 42;
    shm.node_table[0].state = 2;
    shm.node_table[0].pid = 77;
    let alive = [true; 4];
    let request = encode_sync_request_with_nodes(42, 9, &[remote_node(5)]);
    let answer = handle_sync_payload(&mut shm, &request, &alive, 1).unwrap();
    let (domain, nodes) = decode_sync_response(&answer).unwrap();
    assert_eq!(domain, 42);
    assert_eq!(nodes.len(), 1);
    assert_eq!(nodes[0].node_id, 3);
    assert_eq!(shm.find_slot_by_node_id(5), Some(1));
    assert_eq!(
        handle_sync_payload(&mut shm, &encode_ping(), &alive, 1),
        Ok(encode_pong())
    );
    assert_eq!(handle_sync_payload(&mut shm, &[], &alive, 1), Ok(Vec::new()));
    assert_eq!(
        handle_sync_payload(&mut shm, &[0xEE], &alive, 1),
        Err("unsupported daemon sync message".to_string())
    );
}

#[test]
fn only_local_nodes_with_a_live_process_are_reported() {
    let mut shm = ShmDiscovery::create(4, 1, 1);
    for (i, pid) in [(0usize, 10u32), (1, 11), (2, 12)] {
        shm.node_table[i].node_id = i as u64 + 1;
        shm.node_table[i].domain_id = 42;
        shm.node_table[i].state = 2;
        shm.node_table[i].pid = pid;
    }
    shm.node_table[2].daemon_origin = 9;
    let nodes = collect_domain_nodes(&shm, 42, &[true, false, true, true]);
    assert_eq!(nodes.len(), 1);
    assert_eq!(nodes[0].node_id, 1);
    assert!(collect_domain_nodes(&shm, 7, &[true; 4]).is_empty());
}

#[test]
fn truncated_answers_are_refused() {
    let encoded = encode_sync_response(3, &[remote_node(5)]);
    for n in 0..encoded.len() {
        assert!(decode_sync_response(&encoded[..n]).is_err(), "{n}");
    }
    assert!(decode_sync_request(&[]).is_err());
    assert!(decode_sync_request(&encode_pong()).is_err());
}

#[test]
fn a_greeting_is_laid_out_little_endian() {
    let hello = HelloDaemon {
        daemon_id: 0x0102,
        quic_port: 0x0304,
        domains: vec![5],
        generation: 6,
        qkd_sae_id: None,
        security_mode: SecurityMode::Classic,
    };
    assert_eq!(
        encode_hello_daemon(&hello),
        vec![
            0xDD, 2, 1, 0, 0, 0, 0, 0, 0, 4, 3, 6, 0, 0, 0, 0, 0, 0, 0, 1, 0, 5, 0, 0, 0, 0, 0,
            SecurityMode::Classic.wire_value()
        ]
    );
    assert_eq!(decode_hello_daemon(&encode_hello_daemon(&hello)), Ok(hello));
}

#[test]
fn packets_are_told_apart_by_their_first_byte() {
    assert!(matches!(classify_packet(&[0xDD, 1]), PacketKind::Hello));
    assert!(matches!(classify_packet(&[0x51]), PacketKind::QkdControl));
    assert!(matches!(classify_packet(&[0x53]), PacketKind::QkdControl));
    assert!(matches!(classify_packet(&[0x54]), PacketKind::Other));
    assert!(matches!(classify_packet(&[]), PacketKind::Other));
}

#[test]
fn greetings_are_sent_from_usable_addresses_once() {
    assert_eq!(
        non_loopback_ipv4s(&[
            [127, 0, 0, 1],
            [10, 0, 0, 1],
            [0, 0, 0, 0],
            [10, 0, 0, 1],
            [10, 0, 0, 2]
        ]),
        vec![[10, 0, 0, 1], [10, 0, 0, 2]]
    );
}

#[test]
fn a_connection_is_stale_after_its_timeout() {
    let c = PeerConnection {
        daemon_id: 1,
        last_heartbeat: 1_000_000_000,
    };
    assert!(!c.is_stale(2_000_000_000, Duration::from_secs(1)));
    assert!(c.is_stale(2_000_000_001, Duration::from_secs(1)));
    assert!(!c.is_stale(0, Duration::from_secs(0)));
}

fn local_subscriber() -> NodeTableEntry {
    let mut e = NodeTableEntry::default();
    e.state = SlotState::Active.value();
    e.node_id = 1;
    e.domain_id = 42;
    e.pid = 10;
    e.sub_count = 1;
    e.subscribed_topics[0].hash = 0x55;
    e
}

#[test]
fn an_answer_is_taken_over_and_matched() {
    let mut shm = ShmDiscovery::create(4, 1, 1);
    shm.node_table[0] = local_subscriber();
    apply_sync_response(&mut shm, 9, &[remote_node(5), remote_node(6)], 77);
    assert_eq!(shm.header.generation, 1);
    assert_eq!(shm.find_slot_by_node_id(5), Some(1));
    assert_eq!(shm.find_slot_by_node_id(6), Some(2));
    let e = &shm.node_table[1];
    assert_eq!(e.daemon_origin, 9);
    assert_eq!(e.last_seen_secs, 77);
    assert_eq!(e.pid, 0);
    assert_eq!(e.quic_addrs[0], [192, 168, 1, 20]);
    assert_eq!(&e.node_name[..12], b"remote_node\0");
    assert_eq!(shm.node_table[0].match_count, 2);
    assert_eq!(shm.node_table[0].remote_matches[0].node_id, 5);

    // What the daemon does not report any more is given up, with its matches.
    apply_sync_response(&mut shm, 9, &[remote_node(6)], 78);
    assert_eq!(shm.find_slot_by_node_id(5), None);
    assert_eq!(shm.find_slot_by_node_id(6), Some(2));
    assert_eq!(shm.node_table[0].match_count, 1);
    assert_eq!(shm.node_table[0].remote_matches[0].node_id, 6);
    assert_eq!(shm.node_table[1].quic_port, 17400);

    // Another daemon's answer leaves them alone.
    apply_sync_response(&mut shm, 8, &[], 79);
    assert_eq!(shm.find_slot_by_node_id(6), Some(2));
}

#[test]
fn a_silent_daemon_takes_its_nodes_along() {
    let mut shm = ShmDiscovery::create(4, 1, 1);
    shm.node_table[0] = local_subscriber();
    apply_sync_response(&mut shm, 9, &[remote_node(5)], 77);
    apply_sync_response(&mut shm, 8, &[remote_node(7)], 77);
    assert_eq!(shm.node_table[0].match_count, 2);
    remove_silent_daemon(&mut shm, 9);
    assert_eq!(shm.find_slot_by_node_id(5), None);
    assert_eq!(shm.find_slot_by_node_id(7), Some(2));
    assert_eq!(shm.node_table[0].match_count, 1);
    assert_eq!(shm.header.generation, 3);
}
