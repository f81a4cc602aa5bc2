use axon_core::duration::Duration;
use axon_core::qos::{
    qos_profiles_compatible, Durability, HistoryKind, Liveliness, QosHints, QosProfile, Reliability,
    RemoteQos, DEFAULT_MAX_MESSAGE_SIZE,
};

#[test]
fn test_default_qos() {
    let sensor = QosProfile::default_sensor();
    assert_eq!(sensor.reliability, Reliability::BestEffort);
    assert_eq!(sensor.history, HistoryKind::KeepLast { depth: 5 });

    let cmd = QosProfile::default_command();
    assert_eq!(cmd.reliability, Reliability::Reliable);
}

#[test]
fn test_qos_with_deadline_and_lifespan() {
    let qos = QosProfile {
        deadline: Some(Duration::from_millis(100)),
        lifespan: Some(Duration::from_secs(1)),
        liveliness: Liveliness::ManualByTopic,
        liveliness_lease_duration: Some(Duration::from_secs(5)),
        ..QosProfile::default_sensor()
    };
    assert_eq!(qos.deadline, Some(Duration::from_millis(100)));
    assert_eq!(qos.lifespan, Some(Duration::from_secs(1)));
    assert_eq!(qos.liveliness, Liveliness::ManualByTopic);
    assert_eq!(qos.liveliness_lease_duration, Some(Duration::from_secs(5)));
}

#[test]
fn test_qos_custom_resource_fields() {
    let qos = QosProfile {
        reliability: Reliability::BestEffort,
        durability: Durability::Volatile,
        history: HistoryKind::KeepLast { depth: 10 },
        bandwidth_limit: Some(50_000_000),
        max_message_size: 4096,
        deadline: None,
        lifespan: Some(Duration::from_secs(5)),
        liveliness: Liveliness::Automatic,
        liveliness_lease_duration: None,
    };
    assert_eq!(qos.bandwidth_limit, Some(50_000_000));
    assert_eq!(qos.max_message_size, 4096);
    assert_eq!(qos.history, HistoryKind::KeepLast { depth: 10 });
    assert_eq!(qos.deadline, None);
    assert_eq!(qos.lifespan, Some(Duration::from_secs(5)));
    assert_eq!(qos.liveliness, Liveliness::Automatic);
    assert_eq!(qos.liveliness_lease_duration, None);
}

#[test]
fn test_qos_defaults_unlimited_bandwidth() {
    let sensor = QosProfile::default_sensor();
    assert_eq!(sensor.bandwidth_limit, None);
    assert_eq!(sensor.max_message_size, DEFAULT_MAX_MESSAGE_SIZE);

    let cmd = QosProfile::default_command();
    assert_eq!(cmd.bandwidth_limit, None);
    assert_eq!(cmd.max_message_size, DEFAULT_MAX_MESSAGE_SIZE);
}

#[test]
fn test_remote_qos_conversion() {
    let rq = RemoteQos {
        reliability: Reliability::Reliable,
        durability: Durability::TransientLocal,
        history: HistoryKind::KeepLast { depth: 42 },
        deadline: Duration::from_secs(0),
        lifespan: Duration::from_secs(0),
        liveliness: Liveliness::Automatic,
        liveliness_lease_duration: Duration::from_secs(0),
        avoid_ros_namespace_conventions: false,
    };
    let qp: QosProfile = rq.into();
    assert_eq!(qp.reliability, Reliability::Reliable);
    assert_eq!(qp.durability, Durability::TransientLocal);
    assert_eq!(qp.history, HistoryKind::KeepLast { depth: 42 });
    assert_eq!(qp.bandwidth_limit, None);
    assert_eq!(qp.max_message_size, DEFAULT_MAX_MESSAGE_SIZE);
    assert_eq!(qp.deadline, None);
    assert_eq!(qp.lifespan, None);
    assert_eq!(qp.liveliness, Liveliness::Automatic);
    assert_eq!(qp.liveliness_lease_duration, None);
}

#[test]
fn test_liveliness_default() {
    assert_eq!(Liveliness::default(), Liveliness::Automatic);
}

#[test]
fn test_from_qos_profile_constructor() {
    let qp = QosProfile::default_sensor();
    let rq = RemoteQos::from_qos_profile(&qp);
    assert_eq!(rq.reliability, qp.reliability);
    assert_eq!(rq.durability, qp.durability);
    assert_eq!(rq.history, qp.history);
    assert_eq!(rq.deadline, Duration::from_secs(0));
    assert_eq!(rq.lifespan, Duration::from_secs(0));
    assert_eq!(rq.liveliness, Liveliness::Automatic);
    assert_eq!(rq.liveliness_lease_duration, Duration::from_secs(0));
    assert!(!rq.avoid_ros_namespace_conventions);
}

fn mq(
    reliability: Reliability,
    durability: Durability,
    history: HistoryKind,
    deadline: Option<Duration>,
    lifespan: Option<Duration>,
    liveliness: Liveliness,
) -> QosProfile {
    QosProfile {
        reliability,
        durability,
        history,
        bandwidth_limit: None,
        max_message_size: 1024,
        deadline,
        lifespan,
        liveliness,
        liveliness_lease_duration: None,
    }
}

#[test]
fn best_effort_pub_reliable_sub_incompatible() {
    assert!(!qos_profiles_compatible(
        &mq(
            Reliability::BestEffort,
            Durability::Volatile,
            HistoryKind::KeepLast { depth: 10 },
            None,
            None,
            Liveliness::Automatic
        ),
        &mq(
            Reliability::Reliable,
            Durability::Volatile,
            HistoryKind::KeepLast { depth: 10 },
            None,
            None,
            Liveliness::Automatic
        ),
    ));
}

#[test]
fn volatile_pub_transient_local_sub_incompatible() {
    assert!(!qos_profiles_compatible(
        &mq(
            Reliability::Reliable,
            Durability::Volatile,
            HistoryKind::KeepLast { depth: 10 },
            None,
            None,
            Liveliness::Automatic
        ),
        &mq(
            Reliability::Reliable,
            Durability::TransientLocal,
            HistoryKind::KeepLast { depth: 10 },
            None,
            None,
            Liveliness::Automatic
        ),
    ));
}

#[test]
fn keep_last_depth_mismatch_compatible() {
    assert!(qos_profiles_compatible(
        &mq(
            Reliability::Reliable,
            Durability::Volatile,
            HistoryKind::KeepLast { depth: 5 },
            None,
            None,
            Liveliness::Automatic
        ),
        &mq(
            Reliability::Reliable,
            Durability::Volatile,
            HistoryKind::KeepLast { depth: 10 },
            None,
            None,
            Liveliness::Automatic
        ),
    ));
}

#[test]
fn deadline_pub_longer_than_sub_incompatible() {
    assert!(!qos_profiles_compatible(
        &mq(
            Reliability::Reliable,
            Durability::Volatile,
            HistoryKind::KeepLast { depth: 10 },
            Some(Duration::from_secs(5)),
            None,
            Liveliness::Automatic
        ),
        &mq(
            Reliability::Reliable,
            Durability::Volatile,
            HistoryKind::KeepLast { depth: 10 },
            Some(Duration::from_secs(2)),
            None,
            Liveliness::Automatic
        ),
    ));
}

#[test]
fn matching_qos_is_compatible() {
    let q = mq(
        Reliability::Reliable,
        Durability::Volatile,
        HistoryKind::KeepLast { depth: 10 },
        Some(Duration::from_secs(1)),
        Some(Duration::from_secs(10)),
        Liveliness::Automatic,
    );
    assert!(qos_profiles_compatible(&q, &q));
}

#[test]
fn manual_by_topic_sub_automatic_pub_incompatible() {
    assert!(!qos_profiles_compatible(
        &mq(
            Reliability::Reliable,
            Durability::Volatile,
            HistoryKind::KeepLast { depth: 10 },
            None,
            None,
            Liveliness::Automatic
        ),
        &mq(
            Reliability::Reliable,
            Durability::Volatile,
            HistoryKind::KeepLast { depth: 10 },
            None,
            None,
            Liveliness::ManualByTopic
        ),
    ));
}

#[test]
fn lifespan_pub_shorter_than_sub_incompatible() {
    assert!(!qos_profiles_compatible(
        &mq(
            Reliability::Reliable,
            Durability::Volatile,
            HistoryKind::KeepLast { depth: 10 },
            None,
            Some(Duration::from_secs(5)),
            Liveliness::Automatic
        ),
        &mq(
            Reliability::Reliable,
            Durability::Volatile,
            HistoryKind::KeepLast { depth: 10 },
            None,
            Some(Duration::from_secs(10)),
            Liveliness::Automatic
        ),
    ));
}

#[test]
fn best_effort_both_sides_compatible() {
    let q = mq(
        Reliability::BestEffort,
        Durability::Volatile,
        HistoryKind::KeepLast { depth: 10 },
        None,
        None,
        Liveliness::Automatic,
    );
    assert!(qos_profiles_compatible(&q, &q));
}

#[test]
fn keep_all_both_sides_compatible() {
    let q = mq(
        Reliability::Reliable,
        Durability::Volatile,
        HistoryKind::KeepAll,
        None,
        None,
        Liveliness::Automatic,
    );
    assert!(qos_profiles_compatible(&q, &q));
}

#[test]
fn manual_by_participant_asks_for_itself() {
    let q = |l| {
        mq(
            Reliability::Reliable,
            Durability::Volatile,
            HistoryKind::KeepAll,
            None,
            None,
            l,
        )
    };
    assert!(!qos_profiles_compatible(
        &q(Liveliness::ManualByTopic),
        &q(Liveliness::ManualByParticipant)
    ));
    assert!(qos_profiles_compatible(
        &q(Liveliness::ManualByParticipant),
        &q(Liveliness::ManualByTopic)
    ));
    assert!(qos_profiles_compatible(
        &q(Liveliness::Unknown),
        &q(Liveliness::ManualByTopic)
    ));
}

#[test]
fn deadlines_and_lifespans_bind_only_where_both_have_one() {
    let q = |d, l| {
        mq(
            Reliability::Reliable,
            Durability::Volatile,
            HistoryKind::KeepAll,
            d,
            l,
            Liveliness::Automatic,
        )
    };
    let two = Some(Duration::from_secs(2));
    let just_under = Some(Duration { secs: 1, nanos: 999_999_999 });
    assert!(qos_profiles_compatible(&q(None, None), &q(two, two)));
    assert!(qos_profiles_compatible(&q(just_under, None), &q(two, None)));
    assert!(!qos_profiles_compatible(&q(two, None), &q(just_under, None)));
    assert!(qos_profiles_compatible(&q(None, two), &q(None, just_under)));
    assert!(!qos_profiles_compatible(&q(None, just_under), &q(None, two)));
}

#[test]
fn history_and_limits_are_no_policy() {
    let a = mq(
        Reliability::Reliable,
        Durability::Volatile,
        HistoryKind::KeepAll,
        None,
        None,
        Liveliness::Automatic,
    );
    let b = QosProfile {
        history: HistoryKind::KeepLast { depth: 1 },
        bandwidth_limit: Some(1),
        max_message_size: 1,
        ..a
    };
    assert!(qos_profiles_compatible(&a, &b));
    assert!(qos_profiles_compatible(&b, &a));
}

#[test]
fn remote_profile_comes_back() {
    let q = QosProfile {
        deadline: Some(Duration::from_millis(1500)),
        lifespan: None,
        liveliness: Liveliness::ManualByTopic,
        liveliness_lease_duration: Some(Duration::from_secs(3)),
        ..QosProfile::default_command()
    };
    let back: QosProfile = RemoteQos::from_qos_profile(&q).into();
    assert_eq!(back, q);
}

#[test]
fn durations_are_split_at_the_second() {
    let d = Duration::from_millis(1500);
    assert_eq!(d.as_secs(), 1);
    assert_eq!(d.subsec_nanos(), 500_000_000);
    assert!(Duration::from_millis(999).shorter_than(&Duration::from_secs(1)));
    assert!(!Duration::from_secs(1).shorter_than(&Duration::from_secs(1)));
}

#[test]
fn hints_follow_the_profile() {
    let q = QosProfile {
        lifespan: Some(Duration::from_secs(7)),
        bandwidth_limit: Some(9),
        max_message_size: 11,
        ..QosProfile::default_sensor()
    };
    let h = QosHints::from_qos_profile(&q);
    assert_eq!(h.reliability, q.reliability);
    assert_eq!(h.durability, q.durability);
    assert_eq!(h.history, q.history);
    assert_eq!(h.lifespan, q.lifespan);
    assert_eq!(h.bandwidth_limit, Some(9));
    assert_eq!(h.max_message_size, 11);
}
