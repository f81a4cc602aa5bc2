use axon_core::daemon::departures::{
    active_domains, channel_segment_name, process_departed_nodes,
};
use axon_core::daemon::discovery_shm::{
    find_matches_by_hash, find_matching_nodes, is_daemon_node_alive, is_process_alive,
    read_proc_starttime, shm_full_size, topic_entry_qos_compatible, MatchEntry, NodeTableEntry,
    ShmDiscovery, SlotState, TopicEntry, MAGIC, MAX_MATCHES, MAX_TOPICS_PER_NODE,
    MAX_TOPIC_NAME_LEN, MAX_TOPIC_TYPE_LEN,
};
use axon_core::daemon::linking::{process_pending_registrations, process_topic_updates};

#[test]
fn test_find_free_slot_empty() {
    let shm = ShmDiscovery::create(8, 1, 1);
    let slot = shm.find_free_slot();
    assert_eq!(slot, Some(0));
}

#[test]
fn test_claim_free_slot_is_exclusive() {
    let mut shm = ShmDiscovery::create(8, 1, 1);
    let first = shm.claim_free_slot();
    let second = shm.claim_free_slot();
    assert_eq!(first, Some(0));
    assert_eq!(second, Some(1));
    assert_eq!(shm.node_table[0].state, SlotState::Claiming.value());
    assert_eq!(shm.node_table[1].state, SlotState::Claiming.value());
}

#[test]
fn test_topic_match_pub_sub() {
    let pubs = vec![
        TopicEntry {
            hash: 0x42,
            type_hash: 0x100,
            qos_reliability: 0,
            qos_durability: 0,
            qos_history_kind: 0,
            qos_history_depth: 0,
            qos_deadline_sec: 0,
            qos_deadline_nsec: 0,
            qos_lifespan_sec: 0,
            qos_lifespan_nsec: 0,
            qos_liveliness: 0,
            qos_liveliness_lease_sec: 0,
            qos_liveliness_lease_nsec: 0,
            topic_name: [0u8; MAX_TOPIC_NAME_LEN],
            topic_type: [0u8; MAX_TOPIC_TYPE_LEN],
            ..Default::default()
        },
        TopicEntry {
            hash: 0x43,
            type_hash: 0x101,
            qos_reliability: 0,
            qos_durability: 0,
            qos_history_kind: 0,
            qos_history_depth: 0,
            qos_deadline_sec: 0,
            qos_deadline_nsec: 0,
            qos_lifespan_sec: 0,
            qos_lifespan_nsec: 0,
            qos_liveliness: 0,
            qos_liveliness_lease_sec: 0,
            qos_liveliness_lease_nsec: 0,
            topic_name: [0u8; MAX_TOPIC_NAME_LEN],
            topic_type: [0u8; MAX_TOPIC_TYPE_LEN],
            ..Default::default()
        },
    ];
    let subs = vec![
        TopicEntry {
            hash: 0x42,
            type_hash: 0x100,
            qos_reliability: 0,
            qos_durability: 0,
            qos_history_kind: 0,
            qos_history_depth: 0,
            qos_deadline_sec: 0,
            qos_deadline_nsec: 0,
            qos_lifespan_sec: 0,
            qos_lifespan_nsec: 0,
            qos_liveliness: 0,
            qos_liveliness_lease_sec: 0,
            qos_liveliness_lease_nsec: 0,
            topic_name: [0u8; MAX_TOPIC_NAME_LEN],
            topic_type: [0u8; MAX_TOPIC_TYPE_LEN],
            ..Default::default()
        },
        TopicEntry {
            hash: 0x44,
            type_hash: 0x102,
            qos_reliability: 0,
            qos_durability: 0,
            qos_history_kind: 0,
            qos_history_depth: 0,
            qos_deadline_sec: 0,
            qos_deadline_nsec: 0,
            qos_lifespan_sec: 0,
            qos_lifespan_nsec: 0,
            qos_liveliness: 0,
            qos_liveliness_lease_sec: 0,
            qos_liveliness_lease_nsec: 0,
            topic_name: [0u8; MAX_TOPIC_NAME_LEN],
            topic_type: [0u8; MAX_TOPIC_TYPE_LEN],
            ..Default::default()
        },
    ];
    let matches = find_matches_by_hash(&pubs, &subs);
    assert_eq!(matches.len(), 1);
    assert_eq!(matches[0], 0x42);
}

#[test]
fn test_topic_no_match() {
    let pubs = vec![TopicEntry {
        hash: 0x42,
        type_hash: 0x100,
        qos_reliability: 0,
        qos_durability: 0,
        qos_history_kind: 0,
        qos_history_depth: 0,
        qos_deadline_sec: 0,
        qos_deadline_nsec: 0,
        qos_lifespan_sec: 0,
        qos_lifespan_nsec: 0,
        qos_liveliness: 0,
        qos_liveliness_lease_sec: 0,
        qos_liveliness_lease_nsec: 0,
        topic_name: [0u8; MAX_TOPIC_NAME_LEN],
        topic_type: [0u8; MAX_TOPIC_TYPE_LEN],
        ..Default::default()
    }];
    let subs = vec![TopicEntry {
        hash: 0x99,
        type_hash: 0x200,
        qos_reliability: 0,
        qos_durability: 0,
        qos_history_kind: 0,
        qos_history_depth: 0,
        qos_deadline_sec: 0,
        qos_deadline_nsec: 0,
        qos_lifespan_sec: 0,
        qos_lifespan_nsec: 0,
        qos_liveliness: 0,
        qos_liveliness_lease_sec: 0,
        qos_liveliness_lease_nsec: 0,
        topic_name: [0u8; MAX_TOPIC_NAME_LEN],
        topic_type: [0u8; MAX_TOPIC_TYPE_LEN],
        ..Default::default()
    }];
    let matches = find_matches_by_hash(&pubs, &subs);
    assert_eq!(matches.len(), 0);
}

#[test]
fn test_topic_multi_match() {
    let pubs = vec![
        TopicEntry {
            hash: 0x42,
            type_hash: 0x100,
            qos_reliability: 0,
            qos_durability: 0,
            qos_history_kind: 0,
            qos_history_depth: 0,
            qos_deadline_sec: 0,
            qos_deadline_nsec: 0,
            qos_lifespan_sec: 0,
            qos_lifespan_nsec: 0,
            qos_liveliness: 0,
            qos_liveliness_lease_sec: 0,
            qos_liveliness_lease_nsec: 0,
            topic_name: [0u8; MAX_TOPIC_NAME_LEN],
            topic_type: [0u8; MAX_TOPIC_TYPE_LEN],
            ..Default::default()
        },
        TopicEntry {
            hash: 0x43,
            type_hash: 0x101,
            qos_reliability: 0,
            qos_durability: 0,
            qos_history_kind: 0,
            qos_history_depth: 0,
            qos_deadline_sec: 0,
            qos_deadline_nsec: 0,
            qos_lifespan_sec: 0,
            qos_lifespan_nsec: 0,
            qos_liveliness: 0,
            qos_liveliness_lease_sec: 0,
            qos_liveliness_lease_nsec: 0,
            topic_name: [0u8; MAX_TOPIC_NAME_LEN],
            topic_type: [0u8; MAX_TOPIC_TYPE_LEN],
            ..Default::default()
        },
        TopicEntry {
            hash: 0x44,
            type_hash: 0x102,
            qos_reliability: 0,
            qos_durability: 0,
            qos_history_kind: 0,
            qos_history_depth: 0,
            qos_deadline_sec: 0,
            qos_deadline_nsec: 0,
            qos_lifespan_sec: 0,
            qos_lifespan_nsec: 0,
            qos_liveliness: 0,
            qos_liveliness_lease_sec: 0,
            qos_liveliness_lease_nsec: 0,
            topic_name: [0u8; MAX_TOPIC_NAME_LEN],
            topic_type: [0u8; MAX_TOPIC_TYPE_LEN],
            ..Default::default()
        },
    ];
    let subs = vec![
        TopicEntry {
            hash: 0x42,
            type_hash: 0x100,
            qos_reliability: 0,
            qos_durability: 0,
            qos_history_kind: 0,
            qos_history_depth: 0,
            qos_deadline_sec: 0,
            qos_deadline_nsec: 0,
            qos_lifespan_sec: 0,
            qos_lifespan_nsec: 0,
            qos_liveliness: 0,
            qos_liveliness_lease_sec: 0,
            qos_liveliness_lease_nsec: 0,
            topic_name: [0u8; MAX_TOPIC_NAME_LEN],
            topic_type: [0u8; MAX_TOPIC_TYPE_LEN],
            ..Default::default()
        },
        TopicEntry {
            hash: 0x43,
            type_hash: 0x101,
            qos_reliability: 0,
            qos_durability: 0,
            qos_history_kind: 0,
            qos_history_depth: 0,
            qos_deadline_sec: 0,
            qos_deadline_nsec: 0,
            qos_lifespan_sec: 0,
            qos_lifespan_nsec: 0,
            qos_liveliness: 0,
            qos_liveliness_lease_sec: 0,
            qos_liveliness_lease_nsec: 0,
            topic_name: [0u8; MAX_TOPIC_NAME_LEN],
            topic_type: [0u8; MAX_TOPIC_TYPE_LEN],
            ..Default::default()
        },
    ];
    let matches = find_matches_by_hash(&pubs, &subs);
    assert_eq!(matches.len(), 2);
    assert!(matches.contains(&0x42));
    assert!(matches.contains(&0x43));
}

#[test]
fn test_is_process_alive_pid_zero() {
    assert!(!is_process_alive(0, None, 0), "pid 0 always dead");
}

#[test]
fn test_is_process_alive_nonexistent_pid() {
    assert!(
        !is_process_alive(99999999, None, 0),
        "nonexistent pid should return false"
    );
}

fn make_entry(
    reliability: u8,
    durability: u8,
    history_kind: u8,
    history_depth: i32,
    deadline_s: u32,
    deadline_ns: u32,
    lifespan_s: u32,
    lifespan_ns: u32,
    liveliness: u8,
) -> TopicEntry {
    TopicEntry {
        hash: 1,
        type_hash: 1,
        qos_reliability: reliability,
        qos_durability: durability,
        qos_history_kind: history_kind,
        qos_history_depth: history_depth,
        qos_deadline_sec: deadline_s,
        qos_deadline_nsec: deadline_ns,
        qos_lifespan_sec: lifespan_s,
        qos_lifespan_nsec: lifespan_ns,
        qos_liveliness: liveliness,
        qos_liveliness_lease_sec: 0,
        qos_liveliness_lease_nsec: 0,
        topic_name: [0u8; MAX_TOPIC_NAME_LEN],
        topic_type: [0u8; MAX_TOPIC_TYPE_LEN],
        ..Default::default()
    }
}

#[test]
fn test_qos_best_effort_vs_reliable_incompatible() {
    assert!(!topic_entry_qos_compatible(
        &make_entry(0, 0, 1, 10, 0, 0, 0, 0, 0),
        &make_entry(1, 0, 1, 10, 0, 0, 0, 0, 0),
    ));
}

#[test]
fn test_qos_matching_is_compatible() {
    let e = make_entry(1, 0, 1, 10, 0, 0, 0, 0, 0);
    assert!(topic_entry_qos_compatible(&e, &e));
}

#[test]
fn test_qos_volatile_pub_transient_sub_incompatible() {
    assert!(!topic_entry_qos_compatible(
        &make_entry(1, 0, 1, 10, 0, 0, 0, 0, 0),
        &make_entry(1, 1, 1, 10, 0, 0, 0, 0, 0),
    ));
}

#[test]
fn test_qos_depth_mismatch_compatible() {
    assert!(topic_entry_qos_compatible(
        &make_entry(1, 0, 1, 5, 0, 0, 0, 0, 0),
        &make_entry(1, 0, 1, 10, 0, 0, 0, 0, 0),
    ));
}

#[test]
fn a_created_table_is_empty_and_its_header_says_so() {
    let shm = ShmDiscovery::create(64, 7, 9);
    assert_eq!(shm.header.magic, MAGIC);
    assert_eq!(shm.header.max_nodes, 64);
    assert_eq!(shm.header.daemon_pid, 7);
    assert_eq!(shm.header.daemon_proc_starttime, 9);
    assert_eq!(shm.header.generation, 0);
    assert_eq!(shm.node_table.len(), 64);
    assert!(shm.node_table.iter().all(|e| e.state == 0 && e.node_id == 0));
}

#[test]
fn a_header_is_judged_before_its_segment_is_mapped() {
    let shm = ShmDiscovery::create(64, 7, 9);
    let size = shm_full_size(56, 100, 64);
    let mut h = shm.header;
    assert_eq!(ShmDiscovery::open(&h, 56, 100, size as i64), Ok(size));
    assert_eq!(
        ShmDiscovery::open(&h, 56, 100, size as i64 - 1),
        Err("discovery SHM is smaller than expected for this build")
    );
    h.max_topics += 1;
    assert_eq!(
        ShmDiscovery::open(&h, 56, 100, size as i64),
        Err("discovery SHM layout does not match this build")
    );
    h.max_topics -= 1;
    h.max_nodes = 1025;
    assert_eq!(
        ShmDiscovery::open(&h, 56, 100, i64::MAX),
        Err("invalid max_nodes in header")
    );
    h.max_nodes = 0;
    assert_eq!(
        ShmDiscovery::open(&h, 56, 100, i64::MAX),
        Err("invalid max_nodes in header")
    );
    h.magic ^= 1;
    assert_eq!(ShmDiscovery::open(&h, 56, 100, i64::MAX), Err("bad magic"));
}

#[test]
fn start_times_are_read_behind_the_command() {
    let stat = "42 (a b) c) S 1 42 42 0 -1 4194560 1 2 3 4 5 6 7 8 20 0 1 0 777 1000 2";
    assert_eq!(read_proc_starttime(stat), Some(777));
    assert_eq!(read_proc_starttime("42 no parenthesis"), None);
    assert!(is_process_alive(42, Some(stat), 777));
    assert!(!is_process_alive(42, Some(stat), 778));
    let zombie = "42 (x) Z 1 42 42 0 -1 4194560 1 2 3 4 5 6 7 8 20 0 1 0 777 1000 2";
    assert!(!is_process_alive(42, Some(zombie), 777));
    assert_eq!(read_proc_starttime("1 (a)"), None);
    assert_eq!(read_proc_starttime("1 (a)\u{e9}S 1"), None);
    assert_eq!(read_proc_starttime("1 (a) "), None);
    assert!(!is_process_alive(1, Some("1 (a)"), 0));
    assert!(!is_process_alive(1, Some("1 (a)\u{e9}S 1"), 0));
}

#[test]
fn a_remote_node_lives_as_long_as_its_daemon() {
    let mut e = NodeTableEntry::default();
    assert!(!is_daemon_node_alive(&e, true));
    e.daemon_origin = 5;
    assert!(is_daemon_node_alive(&e, false));
    e.pid = 9;
    assert!(!is_daemon_node_alive(&e, false));
    assert!(is_daemon_node_alive(&e, true));
}

fn topic(hash: u64) -> TopicEntry {
    let mut t = TopicEntry::default();
    t.hash = hash;
    t.type_hash = 1;
    t
}

fn node(id: u64, domain: u32, state: SlotState, pubs: &[u64], subs: &[u64]) -> NodeTableEntry {
    let mut e = NodeTableEntry::default();
    e.state = state.value();
    e.node_id = id;
    e.domain_id = domain;
    e.pid = 100 + id as u32;
    e.quic_port = 5000 + id as u16;
    e.quic_addr_count = 1;
    e.quic_addrs[0] = [10, 0, 0, id as u8];
    e.pub_count = pubs.len() as u32;
    for (i, h) in pubs.iter().enumerate() {
        e.published_topics[i] = topic(*h);
    }
    e.sub_count = subs.len() as u32;
    for (i, h) in subs.iter().enumerate() {
        e.subscribed_topics[i] = topic(*h);
    }
    e
}

fn matches_of(e: &NodeTableEntry) -> Vec<(u64, u64, u16, [u8; 4])> {
    e.remote_matches
        .iter()
        .take(e.match_count as usize)
        .map(|m: &MatchEntry| (m.node_id, m.topic_hash, m.port, m.addr))
        .collect()
}

#[test]
fn subscribers_of_a_domain_are_found() {
    let table = vec![
        node(1, 0, SlotState::Active, &[], &[7]),
        node(2, 1, SlotState::Active, &[], &[7]),
        node(3, 0, SlotState::Pending, &[], &[7]),
        node(4, 0, SlotState::Active, &[], &[8, 7]),
    ];
    assert_eq!(
        find_matching_nodes(&table, 0, &[topic(7)]),
        vec![(0, 1, 7), (3, 4, 7)]
    );
}

#[test]
fn a_pending_node_is_matched_and_becomes_active() {
    let mut shm = ShmDiscovery::create(4, 1, 1);
    shm.node_table[0] = node(1, 0, SlotState::Active, &[], &[7]);
    shm.node_table[2] = node(3, 0, SlotState::Pending, &[7], &[]);
    assert!(process_pending_registrations(&mut shm));
    assert_eq!(shm.node_table[2].state, SlotState::Active.value());
    assert_eq!(
        matches_of(&shm.node_table[2]),
        vec![(1, 7, 5001, [10, 0, 0, 1])]
    );
    assert_eq!(
        matches_of(&shm.node_table[0]),
        vec![(3, 7, 5003, [10, 0, 0, 3])]
    );
    assert_eq!(shm.node_table[0].response_gen, 1);
    assert_eq!(shm.node_table[2].response_gen, 1);
    assert!(!process_pending_registrations(&mut shm));
}

#[test]
fn a_pending_subscriber_is_told_of_its_publishers() {
    let mut shm = ShmDiscovery::create(4, 1, 1);
    shm.node_table[0] = node(1, 0, SlotState::Active, &[7], &[]);
    shm.node_table[2] = node(3, 0, SlotState::Pending, &[], &[7]);
    assert!(process_pending_registrations(&mut shm));
    assert_eq!(
        matches_of(&shm.node_table[2]),
        vec![(1, 7, 5001, [10, 0, 0, 1])]
    );
    assert_eq!(shm.node_table[0].match_count, 0);
    // The publisher learns of it when the topics are next looked at.
    assert!(process_topic_updates(&mut shm));
    assert_eq!(
        matches_of(&shm.node_table[0]),
        vec![(3, 7, 5003, [10, 0, 0, 3])]
    );
}

#[test]
fn a_new_topic_of_an_active_node_is_matched() {
    let mut shm = ShmDiscovery::create(4, 1, 1);
    shm.node_table[0] = node(1, 0, SlotState::Active, &[7], &[]);
    shm.node_table[1] = node(2, 0, SlotState::Active, &[], &[7]);
    shm.node_table[3] = node(4, 9, SlotState::Active, &[], &[7]);
    assert!(process_topic_updates(&mut shm));
    assert_eq!(
        matches_of(&shm.node_table[0]),
        vec![(2, 7, 5002, [10, 0, 0, 2])]
    );
    assert_eq!(
        matches_of(&shm.node_table[1]),
        vec![(1, 7, 5001, [10, 0, 0, 1])]
    );
    assert_eq!(shm.node_table[3].match_count, 0);
    let generations: Vec<u64> = shm.node_table.iter().map(|e| e.response_gen).collect();
    assert!(!process_topic_updates(&mut shm));
    assert_eq!(
        matches_of(&shm.node_table[0]),
        vec![(2, 7, 5002, [10, 0, 0, 2])]
    );
    assert_eq!(
        matches_of(&shm.node_table[1]),
        vec![(1, 7, 5001, [10, 0, 0, 1])]
    );
    let after: Vec<u64> = shm.node_table.iter().map(|e| e.response_gen).collect();
    assert_eq!(after, generations);
}

#[test]
fn a_match_of_a_node_that_is_gone_is_dropped() {
    let mut shm = ShmDiscovery::create(4, 1, 1);
    shm.node_table[0] = node(1, 0, SlotState::Active, &[7], &[]);
    shm.node_table[1] = node(2, 0, SlotState::Active, &[], &[7]);
    process_topic_updates(&mut shm);
    let r = process_departed_nodes(&mut shm, 0, &[true, false, true, true]);
    assert!(r.changed);
    assert_eq!(shm.node_table[1].state, SlotState::Empty.value());
    assert_eq!(shm.node_table[0].match_count, 0);
    assert_eq!(shm.header.generation, 1);
    // The publisher still uses the channel.
    assert!(r.closed_channels.is_empty());
    let r = process_departed_nodes(&mut shm, 0, &[false, true, true, true]);
    assert!(r.changed);
    assert_eq!(r.closed_channels, vec![(0, 7)]);
    assert_eq!(channel_segment_name(0, 7), "/axon_domain_0_topic_7");
    let r = process_departed_nodes(&mut shm, 0, &[true; 4]);
    assert!(!r.changed);
    assert_eq!(shm.header.generation, 2);
}

#[test]
fn domains_of_this_host_are_listed_once() {
    let mut shm = ShmDiscovery::create(5, 1, 1);
    shm.node_table[0] = node(1, 4, SlotState::Active, &[], &[]);
    shm.node_table[1] = node(2, 4, SlotState::Pending, &[], &[]);
    shm.node_table[2] = node(3, 2, SlotState::Active, &[], &[]);
    shm.node_table[3] = node(4, 8, SlotState::Active, &[], &[]);
    shm.node_table[3].daemon_origin = 77;
    assert_eq!(active_domains(&shm), vec![4, 2]);
}

#[test]
fn a_table_has_room_for_what_its_header_says() {
    assert_eq!(shm_full_size(1, 1, 1), 4096);
    let e = NodeTableEntry::default();
    assert_eq!(e.published_topics.len(), MAX_TOPICS_PER_NODE);
    assert_eq!(e.remote_matches.len(), MAX_MATCHES);
    let shm = ShmDiscovery::create(1, 0, 0);
    assert_eq!(shm.find_slot_by_node_id(0), None);
}
