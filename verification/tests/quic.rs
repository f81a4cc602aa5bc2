use axon_core::qkd::keys::QkdKeyMaterial;
use axon_core::qkd::store::{QkdKeyStore, QkdSessionKey};
use axon_core::quic_calls::{
    attempt_error, call_failed, connect_first, connect_next, ends_connection, keeps_reading,
    reply_sealing, sealing, AttemptFault, CallFault, ConnectStep, ConnectionFault, Delivery,
    Purpose, ReplySealing, Sealing,
};
use axon_core::quic_transport::{
    enqueue_send, frame_topic, frame_wire, psk_for_daemon, qkd_external_psk, qkd_identity,
    qkd_identity_key_id, quic_max_udp_payload_size, quic_send_window, quic_stream_window,
    resolve_psk, seals_messages, stream_step, stream_tries_left, transport_provider_with_cipher,
    try_complete_pending_response, unframe_topic, unframe_wire, PeerAddr, PeerBook,
    PendingServiceResponse, PendingTopicSend, QkdKeyMode, QuicCipher, StreamEvent, StreamStep,
    TlsGroup, TlsSuite,
};
use axon_core::security_mode::SecurityMode;
use axon_core::topic_pipeline::{SendEvent, SendStep, TopicPipeline, WorkerStep};

#[test]
fn qkd_key_mode_accepts_only_the_two_supported_strategies() {
    assert_eq!(QkdKeyMode::parse("session").unwrap(), QkdKeyMode::Session);
    assert_eq!(
        QkdKeyMode::parse("messages10").unwrap(),
        QkdKeyMode::Messages10
    );
    assert!(QkdKeyMode::parse("fake").is_err());
    assert!(QkdKeyMode::parse("realtime").is_err());
}

#[test]
fn the_key_mode_is_set_by_a_variable() {
    assert_eq!(QkdKeyMode::from_setting(None).unwrap(), QkdKeyMode::Messages10);
    assert_eq!(
        QkdKeyMode::from_setting(Some("session")).unwrap(),
        QkdKeyMode::Session
    );
    assert_eq!(
        QkdKeyMode::from_setting(Some("x")).unwrap_err(),
        "invalid AXON_QKD_KEY_MODE 'x'; expected session or messages10"
    );
    assert!(seals_messages(SecurityMode::Qkd, QkdKeyMode::Messages10));
    assert!(!seals_messages(SecurityMode::Qkd, QkdKeyMode::Session));
    assert!(!seals_messages(SecurityMode::Classic, QkdKeyMode::Messages10));
}

fn session(key_id: &str, byte: u8) -> QkdSessionKey {
    QkdSessionKey {
        remote_daemon_id: 9,
        local_sae_id: "a".to_string(),
        remote_sae_id: "b".to_string(),
        key_id: key_id.to_string(),
        key: [byte; 32],
        active: true,
    }
}

#[test]
fn an_identity_names_its_key() {
    let identity = qkd_identity("key-1");
    assert_eq!(&identity, b"AXON-QKD-TLS13-v1:key-1");
    assert_eq!(qkd_identity_key_id(&identity), Some("key-1"));
    assert_eq!(qkd_identity_key_id(b"other:key-1"), None);
    assert_eq!(qkd_identity_key_id(&[0xff, 0xfe]), None);
}

#[test]
fn a_secret_is_derived_from_its_key() {
    let a = qkd_external_psk(&session("k", 1)).unwrap();
    let b = qkd_external_psk(&session("k", 2)).unwrap();
    let again = qkd_external_psk(&session("k", 1)).unwrap();
    assert_eq!(a.identity, b"AXON-QKD-TLS13-v1:k");
    assert_eq!(a.secret.len(), 32);
    assert_ne!(a.secret, vec![1u8; 32]);
    assert_ne!(a.secret, b.secret);
    assert_eq!(a.secret, again.secret);
    assert_ne!(a.secret, qkd_external_psk(&session("l", 1)).unwrap().secret);
}

#[test]
fn both_ends_of_a_handshake_find_the_same_secret() {
    let mut store = QkdKeyStore::create("a", 1).unwrap_or_else(|_| panic!());
    let material = QkdKeyMaterial {
        key_id: "k".to_string(),
        key: [7; 32],
    };
    store.put(9, "b", &material, true).unwrap();
    let dialled = psk_for_daemon(SecurityMode::Qkd, Some(9), &store)
        .unwrap_or_else(|e| panic!("{}", e))
        .unwrap();
    let accepted = resolve_psk(&store, &dialled.identity).unwrap();
    assert_eq!(dialled.secret, accepted.secret);
    assert!(resolve_psk(&store, b"unknown").is_none());
    assert!(matches!(
        psk_for_daemon(SecurityMode::Classic, Some(9), &store),
        Ok(None)
    ));
    assert!(matches!(
        psk_for_daemon(SecurityMode::Qkd, None, &store),
        Err(e) if e == "QKD connection has no remote daemon ID"
    ));
    assert!(matches!(
        psk_for_daemon(SecurityMode::Qkd, Some(8), &store),
        Err(e) if e == "no QKD key for daemon 8"
    ));
}

#[test]
fn windows_have_bounds() {
    assert_eq!(quic_stream_window(None), 64 << 20);
    assert_eq!(quic_stream_window(Some("1")), 1 << 20);
    assert_eq!(quic_stream_window(Some("2097152")), 2097152);
    assert_eq!(quic_send_window(None), 16 << 20);
    assert_eq!(quic_send_window(Some("0")), 1 << 20);
    assert_eq!(quic_max_udp_payload_size(None), 1200);
    assert_eq!(quic_max_udp_payload_size(Some("1452")), 1452);
    assert_eq!(quic_max_udp_payload_size(Some("65535")), 65527);
    assert_eq!(quic_max_udp_payload_size(Some("x")), 1200);
}

fn addr(ip: u128, port: u16) -> PeerAddr {
    PeerAddr {
        v6: false,
        ip,
        port,
        flow: 0,
        scope: 0,
    }
}

#[test]
fn addresses_are_usable_and_listed_once() {
    let mut book = PeerBook::new();
    book.set_peer_addrs(1, &vec![addr(5, 7), addr(0, 7), addr(5, 7), addr(6, 0)]);
    book.remember_peer_addr(1, addr(8, 1));
    book.remember_peer_addr(1, addr(8, 1));
    book.remember_peer_addr(1, addr(8, 0));
    assert_eq!(book.candidate_addrs(1, None), vec![addr(5, 7), addr(8, 1)]);
    assert_eq!(
        book.candidate_addrs(1, Some(addr(8, 1))),
        vec![addr(8, 1), addr(5, 7)]
    );
    assert_eq!(book.candidate_addrs(2, None), vec![]);
    book.set_peer_daemon(1, 77);
    assert_eq!(book.daemons.get(&1), Some(&77));
}

#[test]
fn a_framed_message_is_found() {
    assert_eq!(frame_wire(b"ab"), vec![0, 0, 0, 2, b'a', b'b']);
    let framed = frame_topic(0x0102, b"hello");
    assert_eq!(&framed[..12], &[0, 0, 0, 0, 0, 0, 1, 2, 0, 0, 0, 5]);
    let mut more = framed.clone();
    more.push(9);
    assert_eq!(unframe_topic(&more), Some((0x0102, &b"hello"[..])));
    assert_eq!(unframe_topic(&framed[..14]), None);
    assert_eq!(unframe_wire(&[0, 0, 0]), None);
}

fn pending(gid: u8, sequence: i64, stream: u64, closed: bool) -> PendingServiceResponse {
    PendingServiceResponse {
        client_gid: [gid; 16],
        request_sequence: sequence,
        stream,
        closed,
    }
}

#[test]
fn an_answer_goes_to_its_own_client() {
    let mut senders = vec![
        pending(1, 1, 10, false),
        pending(2, 1, 20, false),
        pending(3, 1, 30, true),
    ];
    assert_eq!(try_complete_pending_response(&mut senders, &[2; 16], 2), None);
    assert_eq!(senders.len(), 2);
    assert_eq!(
        try_complete_pending_response(&mut senders, &[2; 16], 1),
        Some(20)
    );
    assert_eq!(
        try_complete_pending_response(&mut senders, &[0; 16], 0),
        Some(10)
    );
    assert_eq!(try_complete_pending_response(&mut senders, &[0; 16], 0), None);
}

fn message(n: u64) -> PendingTopicSend {
    PendingTopicSend {
        data: vec![n as u8],
        publication_id: n,
    }
}

#[test]
fn a_queue_keeps_the_newest() {
    let mut queue = Vec::new();
    for n in 0..5 {
        enqueue_send(&mut queue, message(n), 2);
    }
    let left: Vec<u64> = queue.iter().map(|m| m.publication_id).collect();
    assert_eq!(left, vec![3, 4]);
    enqueue_send(&mut queue, message(9), 0);
    assert_eq!(queue.len(), 1);
    for n in 0..50 {
        enqueue_send(&mut queue, message(n), usize::MAX);
    }
    assert_eq!(queue.len(), 51);
}

#[test]
fn history_is_queued_whole_behind_what_waits() {
    let mut pipeline = TopicPipeline::new();
    pipeline.enqueue(message(0), 1);
    pipeline.enqueue_all((1..40).map(message).collect());
    let ids: Vec<u64> = pipeline.waiting.iter().map(|m| m.publication_id).collect();
    assert_eq!(ids, (0..40).collect::<Vec<u64>>());
}

#[test]
fn messages_are_written_in_their_order() {
    let mut pipeline = TopicPipeline::new();
    assert_eq!(pipeline.worker_step(), WorkerStep::Sleep);
    for n in 0..6 {
        pipeline.enqueue(message(n), usize::MAX);
    }
    for n in 0..4 {
        assert_eq!(pipeline.worker_step(), WorkerStep::Prepare);
        assert_eq!(pipeline.take_next().unwrap().publication_id, n);
    }
    assert_eq!(pipeline.worker_step(), WorkerStep::Await { listen: false });
    assert!(pipeline.take_next().is_none());
    assert_eq!(
        pipeline.send_step(SendEvent::Ready { connected: false }),
        SendStep::Connect
    );
    assert_eq!(pipeline.send_step(SendEvent::ConnectFailed), SendStep::Wait);
    assert_eq!(pipeline.send_step(SendEvent::Connected), SendStep::OpenStream);
    assert_eq!(
        pipeline.send_step(SendEvent::StreamFailed),
        SendStep::ForgetAndWait
    );
    assert_eq!(pipeline.send_step(SendEvent::StreamOpened), SendStep::Write);
    assert_eq!(
        pipeline.send_step(SendEvent::WriteFailed),
        SendStep::ForgetAndRetry
    );
    assert_eq!(
        pipeline.send_step(SendEvent::Ready { connected: true }),
        SendStep::OpenStream
    );
    assert_eq!(pipeline.preparing, vec![0, 1, 2, 3]);
    assert_eq!(pipeline.send_step(SendEvent::StreamOpened), SendStep::Write);
    assert_eq!(pipeline.send_step(SendEvent::Written), SendStep::Next);
    assert_eq!(pipeline.preparing, vec![1, 2, 3]);
    assert_eq!(
        pipeline.send_step(SendEvent::Ready { connected: true }),
        SendStep::Write
    );
    assert_eq!(pipeline.take_next().unwrap().publication_id, 4);
}

#[test]
fn a_slow_reader_loses_the_oldest_messages() {
    let mut pipeline = TopicPipeline::new();
    pipeline.enqueue(message(0), 1);
    pipeline.take_next();
    pipeline.enqueue(message(1), 1);
    pipeline.enqueue(message(2), 1);
    assert_eq!(pipeline.worker_step(), WorkerStep::Prepare);
    assert_eq!(pipeline.take_next().unwrap().publication_id, 2);
    assert_eq!(pipeline.preparing, vec![0, 2]);
    assert_eq!(pipeline.worker_step(), WorkerStep::Await { listen: true });
}

#[test]
fn a_stream_is_opened_step_by_step() {
    assert_eq!(stream_step(StreamEvent::Opened), StreamStep::Use);
    assert_eq!(stream_step(StreamEvent::Failed), StreamStep::Reconnect);
    assert_eq!(
        stream_step(StreamEvent::NotConnected {
            reachable: true,
            since_last_try_ms: 500
        }),
        StreamStep::ConnectAndWait
    );
    assert_eq!(
        stream_step(StreamEvent::NotConnected {
            reachable: true,
            since_last_try_ms: 499
        }),
        StreamStep::Wait
    );
    assert_eq!(
        stream_step(StreamEvent::NotConnected {
            reachable: false,
            since_last_try_ms: 900
        }),
        StreamStep::Wait
    );
}

#[test]
fn every_address_of_a_peer_is_tried() {
    let candidates = vec![addr(5, 7), addr(6, 7)];
    assert!(matches!(connect_first(true, &candidates), ConnectStep::Use));
    assert!(matches!(
        connect_first(false, &vec![]),
        ConnectStep::Fail(e) if e == "no peer address"
    ));
    assert!(matches!(
        connect_first(false, &candidates),
        ConnectStep::Try(a) if a == addr(5, 7)
    ));
    let fault = AttemptFault::HandshakeTimedOut;
    assert!(matches!(
        connect_next(&candidates, 0, Purpose::Peer, &fault, "x:7"),
        ConnectStep::Try(a) if a == addr(6, 7)
    ));
    assert!(matches!(
        connect_next(&candidates, 1, Purpose::Peer, &fault, "x:7"),
        ConnectStep::Fail(e) if e == "handshake timed out via x:7"
    ));
    let fault = AttemptFault::NotConfigured("no QKD key for daemon 3".to_string());
    assert!(matches!(
        connect_next(&candidates, 0, Purpose::Peer, &fault, "x:7"),
        ConnectStep::Fail(e) if e == "no QKD key for daemon 3"
    ));
}

#[test]
fn classic_provider_requires_ml_kem_and_a_256_bit_cipher() {
    for (cipher, expected_suite) in [
        (
            QuicCipher::ChaCha20Poly1305,
            TlsSuite::ChaCha20Poly1305Sha256,
        ),
        (QuicCipher::Aes256Gcm, TlsSuite::Aes256GcmSha384),
    ] {
        let provider = transport_provider_with_cipher(SecurityMode::Classic, cipher);
        assert_eq!(provider.kx_groups.len(), 1);
        assert_eq!(provider.kx_groups[0], TlsGroup::X25519MlKem768);
        assert_eq!(provider.cipher_suites.len(), 1);
        assert_eq!(provider.cipher_suites[0], expected_suite);
    }
}

#[test]
fn qkd_provider_has_no_key_exchange_group() {
    for cipher in [QuicCipher::ChaCha20Poly1305, QuicCipher::Aes256Gcm] {
        let provider = transport_provider_with_cipher(SecurityMode::Qkd, cipher);
        assert!(provider.kx_groups.is_empty());
    }
}

#[test]
fn a_stream_is_tried_fifty_times() {
    assert!(stream_tries_left(0));
    assert!(stream_tries_left(49));
    assert!(!stream_tries_left(50));
}

#[test]
fn addresses_of_two_scopes_are_two() {
    let mut book = PeerBook::new();
    let local = PeerAddr {
        v6: true,
        scope: 2,
        ..addr(9, 7)
    };
    let other = PeerAddr { scope: 3, ..local };
    book.set_peer_addrs(1, &vec![local, other, local]);
    assert_eq!(book.candidate_addrs(1, None), vec![local, other]);
}

#[test]
fn faults_are_told() {
    let e = "e".to_string();
    let call = Purpose::ServiceCall;
    assert_eq!(
        attempt_error(call, &AttemptFault::HandshakeTimedOut, "x"),
        "handshake timeout via x"
    );
    assert_eq!(
        attempt_error(call, &AttemptFault::ConnectFailed(e.clone()), "x"),
        "connect failed via x: e"
    );
    assert_eq!(
        attempt_error(call, &AttemptFault::HandshakeFailed(e.clone()), "x"),
        "handshake failed via x: e"
    );
    assert_eq!(
        attempt_error(call, &AttemptFault::StreamFailed(e.clone()), "x"),
        "open bi failed via x: e"
    );
    assert_eq!(
        attempt_error(call, &AttemptFault::StreamTimedOut, "x"),
        "open bi timeout via x"
    );
    let none = vec![];
    let some = vec![addr(5, 7), addr(6, 7)];
    let faults = [
        (CallFault::WriteTopic(None), "write topic hash timeout"),
        (CallFault::WriteTopic(Some(e.clone())), "write topic hash failed: e"),
        (CallFault::WriteLength(None), "write req len timeout"),
        (CallFault::WriteData(Some(e.clone())), "write req data failed: e"),
        (CallFault::Finish(e.clone()), "finish failed: e"),
        (CallFault::ReadLength(None), "read resp len timeout"),
        (CallFault::ReadData(Some(e.clone())), "read resp data failed: e"),
        (CallFault::Security(e.clone()), "e"),
    ];
    for (fault, text) in faults {
        let failure = call_failed(&fault, &none);
        assert_eq!(failure.error, text);
        assert_eq!(failure.reconnect, None);
        assert_eq!(call_failed(&fault, &some).reconnect, Some(addr(5, 7)));
    }
}

#[test]
fn messages_are_sealed_by_what_there_is() {
    assert_eq!(sealing(false, Some(3)), Sealing::Daemon);
    assert_eq!(sealing(true, Some(3)), Sealing::Publication(3));
    assert_eq!(sealing(true, None), Sealing::Message);
    assert_eq!(reply_sealing(false, true), ReplySealing::UnknownDaemon);
    assert_eq!(reply_sealing(true, true), ReplySealing::MessageReply);
    assert_eq!(reply_sealing(true, false), ReplySealing::Reply);
}

#[test]
fn some_faults_end_a_connection() {
    assert!(ends_connection(ConnectionFault::Reset));
    assert!(ends_connection(ConnectionFault::TimedOut));
    assert!(!ends_connection(ConnectionFault::LocallyClosed));
    assert!(keeps_reading(Delivery::Full));
    assert!(keeps_reading(Delivery::NoSubscriber));
    assert!(!keeps_reading(Delivery::Closed));
}
