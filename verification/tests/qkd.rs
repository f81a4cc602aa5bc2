use axon_core::duration::Duration;
use axon_core::qkd::config::{
    beta_profile_dirs, check_config, check_endpoint, choose_profile_dir, decryption_key_url,
    encryption_key_url, env_bool, identity_pem, installed_profile_dir, operation_url,
    optional_path, qkd_max_in_flight, qkd_request_timeout, required_env, shows_identity, BetaProfile, ProfileSearch, QkdConfig,
    QkdEnvironment,
};
use axon_core::qkd::keys::{
    decode_key_ack, decode_key_announcement, decode_single_key, encode_key_ack,
    encode_key_announcement, encode_key_error, key_of_bytes, validate_identifier, KeyRecord,
    KeyResponse, QkdKeyAnnouncement, QkdKeyMaterial, QKD_KEY_BYTES,
};
use axon_core::qkd::manager::QkdDaemonManager;
use axon_core::qkd::messages::QkdMessageKeyLookup;
use axon_core::qkd::store::{
    check_segment, check_segment_name, nix_to_io, qkd_shm_size, QkdKeyStore, StoreError,
    SystemErrorKind, MAX_QKD_MESSAGE_KEYS, MAX_QKD_SESSIONS, MESSAGE_ENTRY_WRITING,
};
use base64::engine::general_purpose::STANDARD as BASE64;
use base64::Engine;

#[test]
fn beta_profile_accepts_two_fixed_roles() {
    assert_eq!(
        BetaProfile::parse("account_id=4624\nrole=1\n").unwrap(),
        BetaProfile {
            account_id: "4624".into(),
            role: 1,
        }
    );
    assert_eq!(
        BetaProfile::parse("# second host\naccount_id = 4624\nrole = 2\n").unwrap(),
        BetaProfile {
            account_id: "4624".into(),
            role: 2,
        }
    );
}

#[test]
fn beta_profile_rejects_invalid_or_ambiguous_values() {
    assert!(BetaProfile::parse("account_id=acct-4624\nrole=1\n").is_err());
    assert!(BetaProfile::parse("account_id=4624\nrole=3\n").is_err());
    assert!(BetaProfile::parse("account_id=4624\n").is_err());
    assert!(BetaProfile::parse("account_id=4624\nrole=1\nextra=x\n").is_err());
}

#[test]
fn beta_profile_builds_complete_qkd_configuration() {
    let config = QkdConfig::from_beta_profile_dir(
        "/tmp/axon-qkd-profile",
        "account_id=4624\nrole=2\n",
        &[true, true, true],
        &None,
    )
    .unwrap();
    assert_eq!(config.local_sae_id, "sae-2");
    assert_eq!(
        config.kme_base_url.as_str(),
        "https://kme-2.acct-4624.etsi-qkd-api.qukaydee.com/api/v1/keys"
    );
    assert_eq!(
        config.client_private_key.as_deref(),
        Some("/tmp/axon-qkd-profile/sae-2.key")
    );
    assert_eq!(
        config.ca_certificate.as_deref(),
        Some("/tmp/axon-qkd-profile/account-4624-server-ca-qukaydee-com.crt")
    );
    assert!(!config.allow_insecure_http);
    assert_eq!(config.request_timeout, Duration::from_secs(3));
}

#[test]
fn installed_profile_is_derived_from_the_daemon_prefix() {
    let daemon = "/tmp/axon_ws/install/rmw_axon/lib/axon_daemon";
    assert_eq!(
        installed_profile_dir(daemon).as_deref(),
        Some("/tmp/axon_ws/install/rmw_axon/share/rmw_axon/qkd")
    );
    assert_eq!(installed_profile_dir("/"), None);
}

fn unique_store() -> QkdKeyStore {
    QkdKeyStore::create("sae-local", 1).unwrap()
}

fn material(key_id: &str, byte: u8) -> QkdKeyMaterial {
    QkdKeyMaterial {
        key_id: key_id.to_string(),
        key: [byte; QKD_KEY_BYTES],
    }
}

#[test]
fn shared_store_pending_activation_and_lookup() {
    let mut store = unique_store();
    let material = QkdKeyMaterial {
        key_id: "key-42".into(),
        key: [0x42; QKD_KEY_BYTES],
    };
    store.put(77, "sae-remote", &material, false).unwrap();
    assert!(store.find_for_daemon(77, true).is_none());
    assert!(!store.find_for_daemon(77, false).unwrap().active);
    assert!(store.activate(77, "key-42"));
    assert!(
        store.activate(77, "key-42"),
        "activating the negotiated key again must remain successful"
    );
    let active = store.find_active_by_key_id("key-42").unwrap();
    assert_eq!(active.remote_daemon_id, 77);
    assert_eq!(active.local_sae_id, "sae-local");
    assert_eq!(active.remote_sae_id, "sae-remote");
    assert_eq!(active.key, [0x42; QKD_KEY_BYTES]);
}

#[test]
fn shared_store_reset_is_visible_to_existing_process_mappings() {
    let mut store = QkdKeyStore::create("sae-before", 1).unwrap();
    let old = material("old-key", 0x11);
    store.put(10, "remote-before", &old, true).unwrap();
    assert!(store.find_for_daemon(10, true).is_some());

    store.reset("sae-after", 1).unwrap();
    assert!(store.find_for_daemon(10, true).is_none());
    assert_eq!(store.local_sae_id().unwrap(), "sae-after");
    let new = material("new-key", 0x22);
    store.put(11, "remote-after", &new, true).unwrap();
    assert_eq!(store.find_for_daemon(11, true).unwrap().key_id, "new-key");
}

#[test]
fn shared_message_cache_coordinates_one_retrieval_across_process_mappings() {
    let mut store = unique_store();
    let alive = [true; MAX_QKD_MESSAGE_KEYS];

    assert!(matches!(
        store
            .claim_message_key("sae-remote", "message-key-1", 1, &alive)
            .unwrap(),
        QkdMessageKeyLookup::Claimed
    ));
    assert!(matches!(
        store
            .claim_message_key("sae-remote", "message-key-1", 2, &alive)
            .unwrap(),
        QkdMessageKeyLookup::Pending
    ));

    let material = material("message-key-1", 0x7a);
    store.publish_message_key("sae-remote", &material).unwrap();
    let cached = match store
        .claim_message_key("sae-remote", "message-key-1", 2, &alive)
        .unwrap()
    {
        QkdMessageKeyLookup::Ready(material) => material,
        _ => panic!("the second process did not receive the shared message key"),
    };
    assert_eq!(cached.key_id, "message-key-1");
    assert_eq!(cached.key, [0x7a; QKD_KEY_BYTES]);
}

#[test]
fn key_response_rejects_wrong_size_and_id() {
    let wrong_size = KeyResponse {
        keys: vec![KeyRecord {
            key_id: "key-a".into(),
            key: BASE64.encode([0u8; 16]),
        }],
    };
    assert!(decode_single_key(&wrong_size, None)
        .unwrap_err()
        .contains("256 bits"));

    let wrong_id = KeyResponse {
        keys: vec![KeyRecord {
            key_id: "key-b".into(),
            key: BASE64.encode([0u8; 32]),
        }],
    };
    assert!(decode_single_key(&wrong_id, Some("key-a"))
        .unwrap_err()
        .contains("does not match"));
}

#[test]
fn key_announcement_and_ack_roundtrip() {
    let announcement = QkdKeyAnnouncement {
        daemon_id: 123,
        sae_id: "sae-a".into(),
        key_id: "key-123".into(),
    };
    let encoded = encode_key_announcement(&announcement).unwrap();
    assert_eq!(decode_key_announcement(&encoded).unwrap(), announcement);
    let ack = encode_key_ack("key-123").unwrap();
    assert_eq!(decode_key_ack(&ack).unwrap(), "key-123");
    assert!(decode_key_ack(&encode_key_error("KME unavailable"))
        .unwrap_err()
        .contains("KME unavailable"));
}

#[test]
fn etsi_client_uses_expected_enc_and_dec_endpoints() {
    let base = "http://127.0.0.1:8080/api/v1/keys";
    assert_eq!(
        encryption_key_url(base, "sae-remote").unwrap(),
        "http://127.0.0.1:8080/api/v1/keys/sae-remote/enc_keys?number=1&size=256"
    );
    assert_eq!(
        decryption_key_url(base, "sae-remote", "key-dec").unwrap(),
        "http://127.0.0.1:8080/api/v1/keys/sae-remote/dec_keys?key_ID=key-dec"
    );
}

#[test]
fn operations_stand_below_the_path_of_their_base() {
    assert_eq!(
        operation_url("https://h:8/a/?q=1#f", "sae b", "enc_keys").unwrap(),
        "https://h:8/a/sae%20b/enc_keys?q=1#f"
    );
    assert_eq!(
        operation_url("https://h", "x%/y", "op").unwrap(),
        "https://h/x%25%2Fy/op"
    );
    let refused = Err("AXON_QKD_KME_BASE_URL cannot be used as a path base".to_string());
    assert_eq!(operation_url("mailto:a@b", "peer", "op"), refused);
    assert_eq!(operation_url("no url", "peer", "op"), refused);
    assert!(operation_url("https://h", "", "op").is_err());
    assert_eq!(
        decryption_key_url("https://h/?q=1#f", "peer", "a b&c").unwrap(),
        "https://h/peer/dec_keys?q=1&key_ID=a+b%26c#f"
    );
}

#[test]
fn a_configuration_is_judged_by_the_scheme_of_its_address() {
    let mut config =
        QkdConfig::from_explicit_env(&environment()).unwrap_or_else(|e| panic!("{e}"));
    assert_eq!(check_config(&config), Ok(()));
    config.client_private_key = None;
    assert!(check_config(&config).is_err());
    config.kme_base_url = "ftp://h/".to_string();
    assert_eq!(
        check_config(&config),
        Err("unsupported QKD KME URL scheme: ftp".to_string())
    );
    config.kme_base_url = "no url".to_string();
    assert!(check_config(&config)
        .unwrap_err()
        .starts_with("invalid AXON_QKD_KME_BASE_URL: "));
    config.kme_base_url = "http://h/".to_string();
    config.allow_insecure_http = true;
    assert_eq!(check_config(&config), Ok(()));
    config.allow_insecure_http = false;
    assert!(check_config(&config).is_err());
}

#[test]
fn daemon_manager_fetches_only_one_key_per_peer_session() {
    let mut manager = QkdDaemonManager::new(unique_store(), "sae-local".to_string());
    assert!(manager.prepare_outbound(88, "sae-remote").is_none());
    let first = manager
        .install_outbound(88, "sae-remote", Ok(material("key-enc", 0x5a)))
        .unwrap_or_else(|e| panic!("{e}"));
    let second = manager.prepare_outbound(88, "sae-remote").unwrap();
    assert_eq!(first.key_id, second.key_id);
    assert!(manager.activate_outbound(88, &first.key_id));
    assert!(manager.has_active_session(88));
    assert_eq!(manager.local_sae_id(), "sae-local");
}

#[test]
fn two_daemons_negotiate_the_same_qkd_session_key() {
    let mut alice = QkdDaemonManager::new(
        QkdKeyStore::create("sae-alice", 1).unwrap(),
        "sae-alice".to_string(),
    );
    let mut bob = QkdDaemonManager::new(
        QkdKeyStore::create("sae-bob", 1).unwrap(),
        "sae-bob".to_string(),
    );

    let alice_key = alice
        .install_outbound(22, "sae-bob", Ok(material("shared-key-1", 0xa5)))
        .unwrap_or_else(|e| panic!("{e}"));
    let announcement_wire = encode_key_announcement(&QkdKeyAnnouncement {
        daemon_id: 11,
        sae_id: "sae-alice".into(),
        key_id: alice_key.key_id.clone(),
    })
    .unwrap();
    let announcement = decode_key_announcement(&announcement_wire).unwrap();
    assert!(!bob.accept_inbound(
        announcement.daemon_id,
        &announcement.sae_id,
        &announcement.key_id,
    ));
    bob.install_inbound(
        announcement.daemon_id,
        &announcement.sae_id,
        Ok(material("shared-key-1", 0xa5)),
    )
    .unwrap();
    let ack_key_id = decode_key_ack(&encode_key_ack(&announcement.key_id).unwrap()).unwrap();
    assert!(alice.activate_outbound(22, &ack_key_id));

    let alice_active = alice.store.find_for_daemon(22, true).unwrap();
    let bob_active = bob.store.find_for_daemon(11, true).unwrap();
    assert_eq!(alice_active.key_id, bob_active.key_id);
    assert_eq!(alice_active.key, bob_active.key);
    assert!(bob.accept_inbound(11, "sae-alice", "shared-key-1"));
}

#[test]
fn missing_kme_fails_without_installing_a_session_key() {
    let mut manager = QkdDaemonManager::new(unique_store(), "sae-local".to_string());
    assert!(manager
        .install_outbound(99, "sae-remote", Err("no route".to_string()))
        .is_err());
    assert!(!manager.has_active_session(99));
    assert!(manager.prepare_outbound(99, "sae-remote").is_none());
}

#[test]
fn a_removed_session_is_gone() {
    let mut manager = QkdDaemonManager::new(unique_store(), "sae-local".to_string());
    manager
        .install_inbound(5, "sae-remote", Ok(material("k1", 1)))
        .unwrap();
    manager
        .install_inbound(6, "sae-other", Ok(material("k2", 2)))
        .unwrap();
    assert_eq!(manager.activate_outbound_by_key_id("k1"), Some(5));
    assert_eq!(manager.activate_outbound_by_key_id("k9"), None);
    manager.remove_session(5);
    assert!(!manager.has_active_session(5));
    assert!(manager.has_active_session(6));
    manager.clear_sessions();
    assert!(!manager.has_active_session(6));
}

#[test]
fn a_session_has_one_key() {
    let mut store = unique_store();
    store.put(1, "sae-r", &material("a", 1), true).unwrap();
    store.put(1, "sae-r", &material("b", 2), false).unwrap();
    assert!(store.find_active_by_key_id("a").is_none());
    assert!(store.find_for_daemon(1, true).is_none());
    assert!(store.activate(1, "b"));
    assert!(store.find_active_by_key_id("b").is_some());
    assert!(!store.activate(1, "c"));
    assert!(!store.activate(2, "b"));
    assert!(store
        .find_active_by_key_id_and_remote_sae("b", "sae-r")
        .is_some());
    assert!(store
        .find_active_by_key_id_and_remote_sae("b", "sae-x")
        .is_none());
    assert_eq!(store.find_by_key_id_for_tls("b").unwrap().key, [2; 32]);
}

#[test]
fn a_store_takes_only_proper_identifiers() {
    let mut store = unique_store();
    assert!(store.put(1, "", &material("a", 1), true).is_err());
    assert!(store
        .put(1, "sae", &material("bad\nkey", 1), true)
        .is_err());
    assert!(matches!(
        QkdKeyStore::create("", 1),
        Err(StoreError::InvalidInput(_))
    ));
    let mut image = unique_store();
    assert!(QkdKeyStore::open(unique_store()).is_ok());
    image.header.magic ^= 1;
    assert!(matches!(
        QkdKeyStore::open(image),
        Err(StoreError::InvalidData(m)) if m == "invalid QKD SHM magic"
    ));
}

#[test]
fn a_full_store_makes_room() {
    let mut store = unique_store();
    for id in 0..(MAX_QKD_SESSIONS as u64 + 1) {
        let _ = store.put(id, "sae-r", &material("k", 1), true);
    }
    let held = (0..(MAX_QKD_SESSIONS as u64 + 1))
        .filter(|id| store.find_for_daemon(*id, true).is_some())
        .count();
    assert_eq!(held, MAX_QKD_SESSIONS);
}

#[test]
fn an_abandoned_message_key_can_be_claimed_again() {
    let mut store = unique_store();
    let alive = [true; MAX_QKD_MESSAGE_KEYS];
    assert!(matches!(
        store.claim_message_key("s", "k", 1, &alive),
        Ok(QkdMessageKeyLookup::Claimed)
    ));
    store.abandon_message_key("s", "k");
    assert!(matches!(
        store.claim_message_key("s", "k", 2, &alive),
        Ok(QkdMessageKeyLookup::Claimed)
    ));
    assert!(store.publish_message_key("s", &material("other", 1)).is_err());
    assert!(store.claim_message_key("", "k", 2, &alive).is_err());
    // A claim of a process that died goes to the next one.
    let dead = [false; MAX_QKD_MESSAGE_KEYS];
    assert!(matches!(
        store.claim_message_key("s", "k", 3, &dead),
        Ok(QkdMessageKeyLookup::Claimed)
    ));
}

fn search_start(sender: &str, key_id: &str) -> u64 {
    let name = [sender.as_bytes(), &[0], key_id.as_bytes()].concat();
    let hash = name.iter().fold(0xcbf2_9ce4_8422_2325u64, |h, b| {
        (h ^ u64::from(*b)).wrapping_mul(0x1000_0000_01b3)
    });
    hash % MAX_QKD_MESSAGE_KEYS as u64
}

fn colliding_keys() -> (String, String) {
    let first = "k0".to_string();
    let start = search_start("s", &first);
    let second = (1..1_000_000)
        .map(|n| format!("k{n}"))
        .find(|k| search_start("s", k) == start)
        .unwrap();
    (first, second)
}

#[test]
fn a_claim_is_seen_behind_an_entry_that_became_free() {
    let mut store = unique_store();
    let alive = [true; MAX_QKD_MESSAGE_KEYS];
    let (k1, k2) = colliding_keys();
    assert!(matches!(
        store.claim_message_key("s", &k1, 1, &alive),
        Ok(QkdMessageKeyLookup::Claimed)
    ));
    assert!(matches!(
        store.claim_message_key("s", &k2, 1, &alive),
        Ok(QkdMessageKeyLookup::Claimed)
    ));
    store.abandon_message_key("s", &k1);
    assert!(matches!(
        store.claim_message_key("s", &k2, 2, &alive),
        Ok(QkdMessageKeyLookup::Pending)
    ));
    store.publish_message_key("s", &material(&k2, 9)).unwrap();
    assert!(matches!(
        store.claim_message_key("s", &k2, 2, &alive),
        Ok(QkdMessageKeyLookup::Ready(m)) if m.key == [9; QKD_KEY_BYTES]
    ));
    // The free entry in front goes to a key that no entry names.
    assert!(matches!(
        store.claim_message_key("s", &k1, 2, &alive),
        Ok(QkdMessageKeyLookup::Claimed)
    ));
}

#[test]
fn a_claim_of_a_dead_process_is_taken_over_where_it_stands() {
    let mut store = unique_store();
    let alive = [true; MAX_QKD_MESSAGE_KEYS];
    let (k1, k2) = colliding_keys();
    store.claim_message_key("s", &k1, 1, &alive).unwrap();
    store.claim_message_key("s", &k2, 1, &alive).unwrap();
    store.abandon_message_key("s", &k1);
    let dead = [false; MAX_QKD_MESSAGE_KEYS];
    assert!(matches!(
        store.claim_message_key("s", &k2, 3, &dead),
        Ok(QkdMessageKeyLookup::Claimed)
    ));
    let used = store.message_entries.iter().filter(|e| e.writer_pid != 0);
    assert_eq!(used.map(|e| e.writer_pid).collect::<Vec<_>>(), vec![3]);
}

#[test]
fn an_entry_that_is_being_written_is_waited_for() {
    let mut store = unique_store();
    let alive = [true; MAX_QKD_MESSAGE_KEYS];
    let start = search_start("s", "k") as usize;
    store.message_entries[start].state = MESSAGE_ENTRY_WRITING;
    store.message_entries[start].writer_pid = 7;
    assert!(matches!(
        store.claim_message_key("s", "k", 1, &alive),
        Ok(QkdMessageKeyLookup::Busy)
    ));
    let dead = [false; MAX_QKD_MESSAGE_KEYS];
    assert!(matches!(
        store.claim_message_key("s", "k", 1, &dead),
        Ok(QkdMessageKeyLookup::Claimed)
    ));
}

#[test]
fn keys_come_out_of_base64() {
    let response = KeyResponse {
        keys: vec![KeyRecord {
            key_id: "key-a".into(),
            key: BASE64.encode([7u8; 32]),
        }],
    };
    let key = decode_single_key(&response, Some("key-a")).unwrap();
    assert_eq!(key.key, [7u8; 32]);
    assert_eq!(key.key_id, "key-a");
    let bad = KeyResponse {
        keys: vec![KeyRecord {
            key_id: "key-a".into(),
            key: "***".into(),
        }],
    };
    assert!(decode_single_key(&bad, None).is_err());
    let none = KeyResponse { keys: vec![] };
    assert!(decode_single_key(&none, None).is_err());
    assert!(key_of_bytes("k", Ok(vec![1; 32])).is_ok());
    assert_eq!(
        key_of_bytes("k", Ok(vec![1; 31])).unwrap_err(),
        "QKD key must be 256 bits, received 248 bits"
    );
}

#[test]
fn identifiers_are_bounded_and_printable() {
    assert!(validate_identifier("ID", "a-b_c", 8).is_ok());
    assert!(validate_identifier("ID", "", 8).is_err());
    assert!(validate_identifier("ID", "123456789", 8).is_err());
    assert!(validate_identifier("ID", "a\tb", 8).is_err());
}

#[test]
fn malformed_key_messages_are_refused() {
    assert!(decode_key_announcement(&[]).is_err());
    let mut wire = encode_key_announcement(&QkdKeyAnnouncement {
        daemon_id: 1,
        sae_id: "s".into(),
        key_id: "k".into(),
    })
    .unwrap();
    wire.pop();
    assert!(decode_key_announcement(&wire).is_err());
    assert_eq!(
        decode_key_ack(&[0x52, 0]),
        Err("invalid QKD key ACK".to_string())
    );
    assert_eq!(
        decode_key_ack(&encode_key_error("x")),
        Err("remote QKD setup failed: x".to_string())
    );
    assert_eq!(encode_key_error(&"y".repeat(2000)).len(), 3 + 1024);
}

fn environment() -> QkdEnvironment {
    QkdEnvironment {
        kme_base_url: Some("https://kme.example:443/api/v1/keys".to_string()),
        local_sae_id: Some("sae-9".to_string()),
        ca_certificate: Some("/ca.pem".to_string()),
        client_certificate: Some("/c.pem".to_string()),
        client_private_key: Some("/k.pem".to_string()),
        allow_insecure_http: None,
        request_timeout_ms: Some("250".to_string()),
    }
}

#[test]
fn a_configuration_is_read_from_variables() {
    let c = QkdConfig::from_explicit_env(&environment()).unwrap_or_else(|e| panic!("{e}"));
    // The default port is left out of the normal form.
    assert_eq!(c.kme_base_url, "https://kme.example/api/v1/keys");
    assert_eq!(c.local_sae_id, "sae-9");
    assert_eq!(c.ca_certificate.as_deref(), Some("/ca.pem"));
    assert_eq!(c.request_timeout, Duration::from_millis(250));
    let mut env = environment();
    env.client_private_key = None;
    assert!(QkdConfig::from_explicit_env(&env).is_err());
    let mut env = environment();
    env.local_sae_id = None;
    assert!(QkdConfig::from_explicit_env(&env).is_err());
    let mut env = environment();
    env.kme_base_url = Some("not a url".to_string());
    assert!(QkdConfig::from_explicit_env(&env).is_err());
}

#[test]
fn settings_have_defaults_and_bounds() {
    let some = |s: &str| Some(s.to_string());
    assert_eq!(qkd_request_timeout(&None), Duration::from_secs(3));
    assert_eq!(qkd_request_timeout(&some("1")), Duration::from_millis(100));
    assert_eq!(qkd_request_timeout(&some("99999999")), Duration::from_secs(60));
    assert_eq!(qkd_max_in_flight(&None), 4);
    assert_eq!(qkd_max_in_flight(&some("0")), 1);
    assert_eq!(qkd_max_in_flight(&some("100")), 32);
    assert!(env_bool(&some("TRUE"), false));
    assert!(!env_bool(&some("0"), true));
    assert!(env_bool(&None, true));
    assert_eq!(optional_path(&some("")), None);
    assert!(required_env("X", &None).is_err());
    assert_eq!(required_env("X", &some("v")), Ok("v".to_string()));
}

#[test]
fn an_endpoint_needs_https_with_certificates() {
    assert!(check_endpoint("https", true, true, true, false).is_ok());
    assert!(check_endpoint("https", true, false, true, true).is_err());
    assert!(check_endpoint("http", false, false, false, true).is_ok());
    assert!(check_endpoint("http", true, true, true, false).is_err());
    assert_eq!(
        check_endpoint("ftp", true, true, true, true),
        Err("unsupported QKD KME URL scheme: ftp".to_string())
    );
    assert_eq!(shows_identity(true, true), Ok(true));
    assert_eq!(shows_identity(false, false), Ok(false));
    assert!(shows_identity(true, false).is_err());
    assert_eq!(identity_pem(b"cert\n".to_vec(), b"key"), b"cert\nkey".to_vec());
    assert_eq!(identity_pem(b"cert".to_vec(), b"key"), b"cert\nkey".to_vec());
}

#[test]
fn profiles_are_searched_in_order() {
    let search = ProfileSearch {
        profile_dir: None,
        home: Some("/home/u".to_string()),
        daemon_path: Some("/opt/x/lib/axon_daemon".to_string()),
        ament_prefixes: vec!["/opt/x".to_string(), "/ws".to_string()],
        colcon_prefixes: vec!["/ws/".to_string()],
        executable: None,
    };
    assert_eq!(
        beta_profile_dirs(&search),
        vec![
            "/home/u/.config/axon/qkd".to_string(),
            "/opt/x/share/rmw_axon/qkd".to_string(),
            "/ws/share/rmw_axon/qkd".to_string(),
        ]
    );
    let only = ProfileSearch {
        profile_dir: Some("/p".to_string()),
        ..search
    };
    let dirs = beta_profile_dirs(&only);
    assert_eq!(dirs, vec!["/p".to_string()]);
    assert_eq!(choose_profile_dir(&dirs, &[true]), Ok(0));
    assert!(choose_profile_dir(&dirs, &[false])
        .unwrap_err()
        .ends_with("(searched: /p)"));
}

#[test]
fn a_missing_profile_file_is_named() {
    let contents = "account_id=1\nrole=1\n";
    for (i, what) in ["server CA certificate", "SAE certificate", "SAE private key"]
        .iter()
        .enumerate()
    {
        let mut present = [true; 3];
        present[i] = false;
        match QkdConfig::from_beta_profile_dir("/d", contents, &present, &None) {
            Ok(_) => panic!("{what}"),
            Err(e) => assert!(e.contains(what), "{e}"),
        }
    }
}

#[test]
fn segments_are_checked_before_use() {
    assert!(check_segment(5, 0o100600, 4096, 5, 4096).is_ok());
    assert!(matches!(
        check_segment(5, 0o100640, 4096, 5, 4096),
        Err(StoreError::PermissionDenied(_))
    ));
    assert!(matches!(
        check_segment(6, 0o100600, 4096, 5, 4096),
        Err(StoreError::PermissionDenied(_))
    ));
    assert!(matches!(
        check_segment(5, 0o100600, 4095, 5, 4096),
        Err(StoreError::InvalidData(_))
    ));
    assert!(check_segment_name("/ok").is_ok());
    assert!(check_segment_name("/n\0").is_err());
    assert_eq!(qkd_shm_size(1, 0, 0), 4096);
    assert_eq!(nix_to_io(2), SystemErrorKind::NotFound);
    assert_eq!(nix_to_io(17), SystemErrorKind::AlreadyExists);
    assert_eq!(nix_to_io(13), SystemErrorKind::PermissionDenied);
    assert_eq!(nix_to_io(5), SystemErrorKind::Other);
}
