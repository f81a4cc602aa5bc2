use axon_core::bytes::{
    append_slice, bytes_equal, from_two_complement, push_be, push_le, read_be, read_le,
    to_two_complement,
};
use axon_core::daemon::graph_sync::{apply_sync_response, remove_silent_daemon};
use axon_core::daemon::discovery_shm::ShmDiscovery;
use axon_core::duration::Duration;
use axon_core::graph_cache::GraphCache;
use axon_core::qkd::client::{
    key_from_kme, store_step, uses_variables, KmeFault, KmeQuery, StoreStep,
};
use axon_core::qkd::config::QkdEnvironment;
use axon_core::qkd::keys::{KeyRecord, KeyResponse};
use axon_core::qkd::store::SystemErrorKind;
use axon_core::qos::QosProfile;
use axon_core::security_mode::SecurityMode;
use axon_core::session::Session;
use axon_core::text::{
    char_is_white, chars_of, find_first, find_last, parse_signed_32, parse_unsigned, push_decimal,
    push_signed_decimal, text_equal, text_of, trim_text,
};

#[test]
fn a_graph_remembers_what_is_registered() {
    let mut graph = GraphCache::new("n");
    graph.register_publisher(1, "/a", "t", 5, QosProfile::default_command(), [1; 16]);
    graph.register_subscription(1, "/a", "t", 5, QosProfile::default_sensor(), [2; 16]);
    graph.register_service(2, "/s", "st", 5);
    graph.register_client(3, "/s", "st", 5);
    let p = graph.local_publishers.get(&1).unwrap();
    assert_eq!(p.topic_name, "/a");
    assert_eq!(p.topic_type, "t");
    assert_eq!(p.node_id, 5);
    assert_eq!(p.gid, [1; 16]);
    assert_eq!(p.node_name, "n");
    assert_eq!(graph.local_subscriptions.get(&1).unwrap().gid, [2; 16]);
    assert_eq!(graph.local_services.get(&2).unwrap().service_name, "/s");
    assert_eq!(graph.local_clients.get(&3).unwrap().service_type, "st");
    graph.register_publisher(1, "/b", "t", 5, QosProfile::default_command(), [1; 16]);
    assert_eq!(graph.local_publishers.len(), 1);
    assert_eq!(graph.local_publishers.get(&1).unwrap().topic_name, "/b");
}

#[test]
fn a_new_session_knows_nothing_of_topics() {
    let session = Session::new(3, 1);
    assert_eq!(session.node_id, 3);
    assert_eq!(session.domain_id, 1);
    assert_eq!(session.count_publishers("/t"), 0);
    assert!(session.get_subscriptions_info("/t").is_empty());
}

#[test]
fn numbers_are_written_and_read_back() {
    for n in [0u64, 7, 10, 4096, u64::MAX] {
        let mut s = String::new();
        push_decimal(&mut s, n);
        assert_eq!(s, n.to_string());
        assert_eq!(parse_unsigned(&s, u64::MAX), Some(n));
    }
    for n in [0i64, -1, 42, i32::MIN as i64, i32::MAX as i64] {
        let mut s = String::new();
        push_signed_decimal(&mut s, n);
        assert_eq!(s, n.to_string());
        assert_eq!(parse_signed_32(&s), Some(n as i32));
    }
    let mut s = String::new();
    push_signed_decimal(&mut s, i64::MIN);
    assert_eq!(s, i64::MIN.to_string());
    assert_eq!(parse_unsigned("256", 255), None);
    assert_eq!(parse_unsigned("", 255), None);
    assert_eq!(parse_unsigned("+5", 255), Some(5));
    assert_eq!(parse_signed_32("2147483648"), None);
}

#[test]
fn text_is_trimmed_and_searched() {
    assert_eq!(trim_text("  a b\u{3000}\n"), "a b");
    assert!(char_is_white('\u{a0}'));
    assert!(!char_is_white('x'));
    let chars = chars_of("abcb");
    assert_eq!(find_first(&chars, 'b'), Some(1));
    assert_eq!(find_last(&chars, 'b'), Some(3));
    assert_eq!(find_last(&chars, 'x'), None);
    assert_eq!(text_of(&chars, 1, 3), "bc");
    assert!(text_equal("a", "a"));
    assert!(!text_equal("a", "ab"));
}

#[test]
fn bytes_are_written_in_order() {
    let mut buf = Vec::new();
    push_be(&mut buf, 0x0102, 4);
    push_le(&mut buf, 0x0102, 4);
    assert_eq!(buf, vec![0, 0, 1, 2, 2, 1, 0, 0]);
    assert_eq!(read_be(&buf, 0, 4), 0x0102);
    assert_eq!(read_le(&buf, 4, 4), 0x0102);
    append_slice(&mut buf, &[9]);
    assert_eq!(buf.len(), 9);
    assert!(bytes_equal(&buf[8..], &[9]));
    assert_eq!(to_two_complement(-1), u32::MAX);
    assert_eq!(from_two_complement(0x8000_0000), i32::MIN);
}

#[test]
fn spans_of_time_are_compared() {
    assert_eq!(Duration::from_millis(1500).as_secs(), 1);
    assert_eq!(Duration::from_millis(1500).subsec_nanos(), 500_000_000);
    assert!(Duration::from_secs(1).shorter_than(&Duration::from_millis(1001)));
    assert!(!Duration::from_secs(1).shorter_than(&Duration::from_millis(1000)));
}

#[test]
fn security_modes_have_wire_values() {
    for mode in [SecurityMode::Classic, SecurityMode::Qkd] {
        assert_eq!(SecurityMode::from_wire(mode.wire_value()), Some(mode));
    }
    assert_eq!(SecurityMode::from_wire(200), None);
    assert_ne!(SecurityMode::Classic.name(), SecurityMode::Qkd.name());
}

#[test]
fn an_empty_answer_changes_no_empty_table() {
    let mut shm = ShmDiscovery::create(2, 1, 1);
    apply_sync_response(&mut shm, 9, &Vec::new(), 100);
    remove_silent_daemon(&mut shm, 9);
    assert!(shm.node_table.iter().all(|n| n.state == 0));
}

fn response(key_id: &str, key: &str) -> KeyResponse {
    KeyResponse {
        keys: vec![KeyRecord {
            key_id: key_id.to_string(),
            key: key.to_string(),
        }],
    }
}

#[test]
fn the_answers_for_keys_are_read() {
    // Thirty-two zero bytes.
    let zeros = "AAAAAAAAAAAAAAAAAAAAAAAAAAAAAAAAAAAAAAAAAAA=";
    let key = key_from_kme(KmeQuery::Encryption, &Ok(response("k", zeros))).unwrap();
    assert_eq!(key.key_id, "k");
    assert_eq!(key.key, [0; 32]);
    assert!(key_from_kme(KmeQuery::Decryption("k"), &Ok(response("k", zeros))).is_ok());
    assert!(key_from_kme(KmeQuery::Decryption("l"), &Ok(response("k", zeros))).is_err());
    let faults = [
        (
            KmeQuery::Encryption,
            KmeFault::Request("e".to_string()),
            "QKD enc_keys request failed: e",
        ),
        (
            KmeQuery::Decryption("k"),
            KmeFault::Rejected("e".to_string()),
            "QKD dec_keys rejected: e",
        ),
        (
            KmeQuery::Encryption,
            KmeFault::Json("e".to_string()),
            "invalid QKD enc_keys JSON: e",
        ),
    ];
    for (query, fault, text) in faults {
        assert_eq!(key_from_kme(query, &Err(fault)).unwrap_err(), text);
    }
}

#[test]
fn variables_go_before_profiles() {
    let mut env = QkdEnvironment {
        kme_base_url: None,
        local_sae_id: None,
        ca_certificate: None,
        client_certificate: None,
        client_private_key: None,
        allow_insecure_http: Some("1".to_string()),
        request_timeout_ms: Some("1".to_string()),
    };
    assert!(!uses_variables(&env));
    env.client_private_key = Some(String::new());
    assert!(uses_variables(&env));
}

#[test]
fn a_key_store_is_reset_created_or_replaced() {
    assert_eq!(store_step(Ok(())), StoreStep::Reset);
    assert_eq!(store_step(Err(SystemErrorKind::NotFound)), StoreStep::Create);
    assert_eq!(
        store_step(Err(SystemErrorKind::PermissionDenied)),
        StoreStep::Replace
    );
    assert_eq!(StoreStep::Reset.error("e"), "reset QKD key store: e");
    assert_eq!(StoreStep::Create.error("e"), "create QKD key store: e");
    assert_eq!(
        StoreStep::Replace.error("e"),
        "replace invalid QKD key store: e"
    );
}
