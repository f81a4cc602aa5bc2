use axon_core::bridge::graph::{
    axon_session_count_publishers, axon_session_count_subscribers,
    axon_session_get_content_filter, axon_session_get_node_names,
    axon_session_get_node_names_with_enclaves, axon_session_get_node_names_with_namespaces,
    axon_session_get_publishers_info, axon_session_get_service_names_and_types,
    axon_session_get_subscriptions_info, axon_session_get_topic_names,
    axon_session_get_topic_type, endpoint_info_serialized_len, event_kind_from_ffi,
    fill_names_and_types, write_qos_to_output,
};
use axon_core::bridge::registry::Registry;
use axon_core::bridge::settings::{
    acl_direction, add_graph_fd, duration_from_rmw_parts, liveliness_from_ffi, may_fall_back,
    missing_session, parse_port_range, port_failure, publisher_qos_from_ffi, qos_from_ffi,
    quic_port_candidates, registration_step, remove_graph_fd, service_default_qos,
    service_max_message_size, subscription_qos_from_ffi, AclDirection, GraphEventFd, QosInput,
    Registration, RMW_DURATION_INFINITE_NSEC, RMW_DURATION_INFINITE_SEC,
};
use axon_core::bridge::take::{
    availability_code, axon_session_take, axon_session_take_next, axon_session_take_request,
    axon_session_take_response, axon_session_take_response_for_client, is_expected_empty_receive,
    message_info, next_message_info, take_next_report, take_plan, ServiceResponseTake, TakePlan,
    TakeReply,
};
use axon_core::duration::Duration;
use axon_core::events::{EventKind, EventMonitor};
use axon_core::filter::ContentFilter;
use axon_core::local::pubsub::LocalPubSub;
use axon_core::qos::{Durability, HistoryKind, Liveliness, QosProfile, Reliability};
use axon_core::security_mode::SecurityMode;
use axon_core::session::{Session, TopicEndpointInfo};
use std::collections::HashMap;

#[test]
fn expected_empty_receive_is_not_reported_as_transport_error() {
    assert!(is_expected_empty_receive(
        "receive_next: no data at this sequence number"
    ));
    assert!(!is_expected_empty_receive("receive_next: slot overwritten"));
}

#[test]
fn test_rmw_duration_parts_normalization() {
    assert_eq!(duration_from_rmw_parts(0, 0), None);
    assert_eq!(
        duration_from_rmw_parts(RMW_DURATION_INFINITE_SEC, RMW_DURATION_INFINITE_NSEC),
        None
    );
    assert_eq!(
        duration_from_rmw_parts(1, 1_500_000_000),
        Some(Duration {
            secs: 2,
            nanos: 500_000_000
        })
    );
}

#[test]
fn test_liveliness_from_ffi_wire_values() {
    assert_eq!(liveliness_from_ffi(0), Liveliness::Automatic);
    assert_eq!(liveliness_from_ffi(1), Liveliness::ManualByTopic);
    assert_eq!(liveliness_from_ffi(2), Liveliness::ManualByParticipant);
    assert_eq!(liveliness_from_ffi(3), Liveliness::Automatic);
}

fn endpoint(topic: &str) -> TopicEndpointInfo {
    TopicEndpointInfo {
        node_name: "node".to_string(),
        node_namespace: "/".to_string(),
        topic_type: "test_type".to_string(),
        topic_name: topic.to_string(),
        transport_kind: "local".to_string(),
        gid: [3; 16],
        qos: QosProfile::default_command(),
    }
}

fn publishing(topic: &str) -> Session {
    let mut session = Session::new(42, 0);
    session
        .topics
        .push((topic.to_string(), "test_type".to_string()));
    session.publishers.push(endpoint(topic));
    session
}

#[test]
fn test_graph_eventfd_registration_owns_duplicate() {
    let event_fd = 11;
    let mut fds = Vec::new();
    assert_eq!(registration_step(&fds, event_fd), Registration::Duplicate);
    assert_eq!(add_graph_fd(&mut fds, event_fd, 12), 0);
    assert_eq!(fds.len(), 1);
    assert_eq!(fds[0].original, event_fd);
    assert_ne!(fds[0].signal, event_fd);
    assert_eq!(registration_step(&fds, event_fd), Registration::Done);
    assert_eq!(remove_graph_fd(&mut fds, event_fd), 0);
    assert!(fds.is_empty());
}

#[test]
fn descriptors_that_are_none_are_refused() {
    let mut fds = vec![
        GraphEventFd { original: 1, signal: 2 },
        GraphEventFd { original: 3, signal: 4 },
    ];
    assert_eq!(registration_step(&fds, -1), Registration::Refused);
    assert_eq!(add_graph_fd(&mut fds, 5, -1), -1);
    assert_eq!(remove_graph_fd(&mut fds, -1), -1);
    assert_eq!(fds.len(), 2);
    assert_eq!(remove_graph_fd(&mut fds, 1), 0);
    assert_eq!(fds, vec![GraphEventFd { original: 3, signal: 4 }]);
}

#[test]
fn test_pub_sub_roundtrip() {
    let mut channel = LocalPubSub::new(8, 256, 5).unwrap_or_else(|e| panic!("{}", e.message));
    let data = b"hello from c_bridge";
    let seq = channel.publish(data, 1).unwrap();

    let mut out = vec![0u8; 256];
    let received = channel.receive(seq, &mut out).ok();
    let reply = axon_session_take(256, true, received, None);
    assert_eq!(reply.code, 0, "take should succeed");
    let out_len = reply.len.unwrap();
    assert_eq!(out_len as usize, data.len(), "data length should match");
    assert_eq!(&out[..out_len as usize], data, "data should match");
}

#[test]
fn test_service_retry_path_small_buffer() {
    let mut channel = LocalPubSub::new(8, 256, 5).unwrap_or_else(|e| panic!("{}", e.message));
    let req = b"small request";
    let seq = channel.publish(req, 1).unwrap();
    let size = channel.message_size(seq);

    // Take with tiny buffer to trigger -2 retry path
    let reply = axon_session_take_request(1, size, Err("not taken"));
    assert_eq!(reply.code, -2, "take_request with tiny buf should return -2");
    let out_len = reply.len.unwrap();
    assert!(out_len > 1, "should report actual size > 1");

    // Now take with correct size
    let mut buf = vec![0u8; out_len as usize];
    let taken = channel.receive(seq, &mut buf);
    let reply = axon_session_take_request(out_len, size, taken);
    assert_eq!(reply.code, 0, "take_request retry should succeed");
    assert_eq!(reply.len.unwrap() as usize, req.len());

    // Send response
    let resp = b"response_data";
    let res_seq = channel.publish(resp, 2).unwrap();
    let size = channel.message_size(res_seq).ok();

    // Take response with tiny buffer
    let reply = axon_session_take_response(1, size, None);
    assert_eq!(reply.code, -2, "take_response with tiny buf should return -2");
    let out_len = reply.len.unwrap();
    assert!(out_len > 1);

    // Retry with correct size
    let mut res_buf = vec![0u8; out_len as usize];
    let taken = channel.receive(res_seq, &mut res_buf).ok();
    let reply = axon_session_take_response(out_len, size, taken);
    assert_eq!(reply.code, 0, "take_response retry should succeed");
    assert_eq!(reply.len.unwrap() as usize, resp.len());
}

#[test]
fn test_graph_introspection() {
    let session = publishing("/c_bridge_graph");
    let reply = axon_session_get_topic_names(Some(&session), 256);
    assert_eq!(reply.code, 0, "get_topic_names should succeed");
    assert!(reply.count.unwrap() >= 1, "should have at least 1 topic");
    assert_eq!(reply.written, b"/c_bridge_graph\0");
}

#[test]
fn test_graph_introspection_reports_small_buffer() {
    let session = publishing("/c_bridge_graph_small_buffer");
    let reply = axon_session_get_topic_names(Some(&session), 1);
    assert_eq!(reply.code, -2, "tiny topic-name buffer should request retry");
    assert!(reply.count.unwrap() >= 1, "should report total topic count");
}

#[test]
fn test_endpoint_info_reports_small_buffer() {
    let topic = "/c_bridge_endpoint_small_buffer";
    let session = publishing(topic);
    let reply = axon_session_get_publishers_info(Some(&session), topic, 1);
    assert_eq!(
        reply.code, -2,
        "tiny endpoint-info buffer should request retry"
    );
    assert!(
        reply.count.unwrap() >= 1,
        "should report total publisher endpoint count"
    );
}

#[test]
fn test_count_bridge_functions() {
    let session = publishing("count_test");
    assert_eq!(
        axon_session_count_publishers(Some(&session), "count_test"),
        Some(1)
    );
    assert_eq!(
        axon_session_count_subscribers(Some(&session), "count_test"),
        Some(0)
    );
}

#[test]
fn test_qos_bridge_functions() {
    let qos = publisher_qos_from_ffi(&input(1, 0, 1, 1));
    let out = write_qos_to_output(&qos);
    assert_eq!(out.reliability, 1); // reliable
    assert_eq!(out.durability, 0); // volatile
}

#[test]
fn test_bridge_event_lifecycle() {
    let mut monitor = EventMonitor::new();
    let handle = monitor.create_event(event_kind_from_ffi(1), 0); // LivelinessChanged
    assert_ne!(handle, 0, "event handle should be non-zero");
    assert_eq!(event_kind_from_ffi(1), EventKind::LivelinessChanged);
    assert!(monitor.take_event(handle).is_none());
    monitor.destroy_event(handle);
    assert!(monitor.take_event(handle).is_none());
}

#[test]
fn test_bridge_content_filter() {
    let filter = ContentFilter::new("f1", "x > 0", HashMap::new());
    let (name_buf, expr_buf) = axon_session_get_content_filter(Some(&filter), 64, 128).unwrap();
    assert_eq!(&name_buf[..2], b"f1");
    assert_eq!(&expr_buf[..5], b"x > 0");
    assert!(axon_session_get_content_filter(None, 64, 128).is_none());
    let (name_buf, expr_buf) = axon_session_get_content_filter(Some(&filter), 2, 3).unwrap();
    assert_eq!(name_buf, b"f\0");
    assert_eq!(expr_buf, b"x \0");
}

#[test]
fn test_bridge_node_names_with_enclaves() {
    let mut session = Session::new(42, 0);
    session
        .nodes
        .push(("other".to_string(), "/".to_string()));
    session
        .nodes
        .push(("enclave_node".to_string(), "/enclave_ns".to_string()));
    let reply = axon_session_get_node_names_with_enclaves(Some(&session), 256);
    assert_eq!(reply.code, 0);
    let names_count = reply.count.unwrap();
    let names_buf = reply.written;
    assert!(names_count >= 1, "should have at least 1 node");
    // Scan through all name\0namespace\0 entries to find our node
    let mut offset = 0;
    let mut found = false;
    for _ in 0..names_count {
        let name_len = names_buf[offset..]
            .iter()
            .position(|byte| *byte == 0)
            .unwrap();
        let ns_start = offset + name_len + 1;
        let remaining = &names_buf[ns_start..];
        let ns_len = remaining.iter().position(|byte| *byte == 0).unwrap();
        if &names_buf[offset..offset + name_len] == b"enclave_node" {
            assert_eq!(&names_buf[ns_start..ns_start + ns_len], b"/enclave_ns");
            found = true;
            break;
        }
        offset = ns_start + ns_len + 1;
    }
    assert!(found, "enclave_node not found in node list");
}

#[test]
fn test_bridge_large_message_resize_path() {
    let large_data: Vec<u8> = (0..100_000).map(|i| (i % 256) as u8).collect();
    assert!(large_data.len() > 65536, "test needs data > 64KB");
    let mut channel =
        LocalPubSub::new(2, 200_000, 5).unwrap_or_else(|e| panic!("{}", e.message));
    let seq = channel.publish(&large_data, 1).unwrap();

    // take_next with small buffer
    let mut small_buf = vec![0u8; 65536];
    let received = channel.receive_peek(seq, &mut small_buf).ok().map(|n| (n, seq));
    let found = channel.message_size(seq).ok().map(|n| (n, seq));
    let reply = axon_session_take_next(65536, true, received, found);
    assert_eq!(reply.code, -2);
    let out_len = reply.len.unwrap();
    assert!(
        out_len > 65536,
        "peek should return size > 64KB, got {}",
        out_len
    );
    let mut buf = vec![0u8; out_len as usize];
    let next_seq = reply.next_seq.unwrap();
    let received = channel.receive(next_seq, &mut buf).ok().map(|n| (n, next_seq));
    let reply = axon_session_take_next(out_len, true, received, None);
    assert_eq!(reply.code, 0, "retry should succeed");
    let actual_len = reply.len.unwrap() as usize;
    assert_eq!(
        actual_len,
        large_data.len(),
        "retry size mismatch: got {} expected {}",
        actual_len,
        large_data.len()
    );
    assert_eq!(&buf[..actual_len], &large_data[..]);
    assert_eq!(reply.next_seq, Some(seq + 1));
}

#[test]
fn a_call_without_a_session_fails() {
    assert_eq!(axon_session_get_node_names(None, 10).code, -1);
    assert_eq!(axon_session_get_topic_names(None, 10).code, -1);
    assert_eq!(axon_session_get_publishers_info(None, "t", 10).code, -1);
    assert_eq!(axon_session_count_publishers(None, "t"), None);
    assert_eq!(axon_session_get_topic_type(None, "t"), None);
    assert!(axon_session_get_service_names_and_types(None).is_none());
    assert_eq!(
        missing_session(7, 2),
        "session 7 not found (2 sessions exist)"
    );
}

#[test]
fn names_come_with_namespaces_and_types() {
    let mut session = publishing("/t");
    session.nodes.push(("n".to_string(), "/ns".to_string()));
    session
        .services
        .push(("/s".to_string(), "srv_type".to_string()));
    let reply = axon_session_get_node_names_with_namespaces(Some(&session), 100);
    assert_eq!(reply.written, b"node_42\0/\0n\0/ns\0");
    assert_eq!(reply.count, Some(2));
    assert_eq!(
        axon_session_get_node_names(Some(&session), 100).written,
        b"node_42\0n\0"
    );
    assert_eq!(
        axon_session_get_topic_type(Some(&session), "/t"),
        Some("test_type".to_string())
    );
    assert_eq!(axon_session_get_topic_type(Some(&session), "/u"), None);
    assert_eq!(
        axon_session_get_service_names_and_types(Some(&session)),
        Some((vec!["/s".to_string()], vec!["srv_type".to_string()]))
    );
    let (names, types) = fill_names_and_types(&vec![
        ("a".to_string(), vec!["x".to_string(), "y".to_string()]),
        ("b".to_string(), vec![]),
    ]);
    assert_eq!(names, vec!["a", "b"]);
    assert_eq!(types, vec!["x", "unknown"]);
}

#[test]
fn an_endpoint_is_written_as_a_record() {
    let session = publishing("/t");
    let len = endpoint_info_serialized_len(&session.publishers[0]);
    assert_eq!(len, 5 + 2 + 10 + 16 + 16);
    let reply = axon_session_get_publishers_info(Some(&session), "/t", len as u32);
    assert_eq!((reply.code, reply.count), (0, Some(1)));
    assert_eq!(reply.written.len(), len);
    assert_eq!(&reply.written[..17], b"node\0/\0test_type\0");
    assert_eq!(&reply.written[17..33], &[3; 16]);
    assert_eq!(
        &reply.written[33..],
        &[1, 0, 0, 0, 0, 0, 0, 0, 1, 0, 0, 0, 1, 0, 0, 0]
    );
    let reply = axon_session_get_subscriptions_info(Some(&session), "/t", 0);
    assert_eq!((reply.code, reply.count), (0, Some(0)));
    let reply = axon_session_get_publishers_info(Some(&session), "/t", len as u32 - 1);
    assert_eq!(reply.code, -2);
}

fn input(reliability: i32, durability: i32, history_kind: i32, depth: i32) -> QosInput {
    QosInput {
        reliability,
        durability,
        history_kind,
        depth,
        deadline_s: 1,
        deadline_ns: 5,
        lifespan_s: 0,
        lifespan_ns: 0,
        liveliness: 1,
        lease_s: RMW_DURATION_INFINITE_SEC,
        lease_ns: RMW_DURATION_INFINITE_NSEC,
    }
}

#[test]
fn profiles_are_read_from_plain_numbers() {
    let p = subscription_qos_from_ffi(&input(1, 1, 1, 7));
    assert_eq!(p.reliability, Reliability::Reliable);
    assert_eq!(p.durability, Durability::TransientLocal);
    assert_eq!(p.history, HistoryKind::KeepLast { depth: 7 });
    assert_eq!(
        p.deadline,
        Some(Duration {
            secs: 1,
            nanos: 5
        })
    );
    assert_eq!(p.lifespan, None);
    assert_eq!(p.liveliness, Liveliness::ManualByTopic);
    assert_eq!(p.liveliness_lease_duration, None);
    let p = subscription_qos_from_ffi(&input(0, 0, 1, 7));
    assert_eq!(p.reliability, Reliability::BestEffort);
    assert_eq!(p.durability, Durability::Volatile);
    let out = write_qos_to_output(&p);
    assert_eq!((out.deadline_s, out.deadline_ns), (1, 5));
}

#[test]
fn services_have_room_by_their_type() {
    assert_eq!(
        service_max_message_size("std_srvs/srv/Empty", Some("77")),
        77
    );
    let small = service_max_message_size("std_srvs/srv/Empty", None);
    let parameters = service_max_message_size("rcl_interfaces/srv/GetParameters", Some("x"));
    assert!(small < parameters);
    assert_eq!(
        service_default_qos("std_srvs/srv/Empty", None, 1).max_message_size,
        small
    );
    assert_eq!(
        qos_from_ffi("std_srvs/srv/Empty", None, &input(1, 0, 1, 7)).max_message_size,
        small
    );
}

#[test]
fn ports_are_listed() {
    assert_eq!(parse_port_range("5-7"), Some((5, 7)));
    assert_eq!(parse_port_range("7-5"), None);
    assert_eq!(parse_port_range("x"), None);
    assert_eq!(quic_port_candidates(Some("9"), Some("5-6")), vec![9]);
    assert_eq!(quic_port_candidates(None, Some("5-6")), vec![5, 6]);
    assert_eq!(quic_port_candidates(None, None), vec![0]);
    assert_eq!(port_failure(9, "busy"), "port 9: busy");
    assert!(may_fall_back(Some(SecurityMode::Classic)));
    assert!(!may_fall_back(Some(SecurityMode::Qkd)));
    assert_eq!(acl_direction(0), Some(AclDirection::Publish));
    assert_eq!(acl_direction(1), Some(AclDirection::Subscribe));
    assert_eq!(acl_direction(2), None);
}

#[test]
fn a_take_is_planned_and_answered() {
    assert_eq!(take_plan(0, true), TakePlan::Peek);
    assert_eq!(take_plan(4, false), TakePlan::Refuse);
    assert_eq!(take_plan(4, true), TakePlan::Receive);
    let told = axon_session_take(0, true, None, Some(40));
    assert_eq!((told.code, told.len), (-1, Some(40)));
    assert_eq!(axon_session_take(4, false, None, Some(40)).code, -1);
    let empty = axon_session_take_next(4, true, None, None);
    assert_eq!(
        empty,
        TakeReply {
            code: -3,
            len: None,
            next_seq: None
        }
    );
    assert_eq!(
        axon_session_take_request(4, Err("slot not yet written"), Ok(1)).code,
        -3
    );
    assert_eq!(
        axon_session_take_request(4, Err("slot overwritten"), Ok(1)).code,
        -1
    );
    assert_eq!(axon_session_take_response(4, None, Some(1)).code, -1);
    assert_eq!(
        take_next_report("/t", 4, "slot overwritten"),
        Some("take_next error: topic=/t seq=4 err=slot overwritten".to_string())
    );
    assert_eq!(
        take_next_report("/t", 4, "no data at this sequence number"),
        None
    );
    let info = message_info(100, 4);
    assert_eq!(info.received_timestamp, 100);
    assert_eq!(info.sequence_number, 4);
    assert_eq!(next_message_info(100, 5).sequence_number, 4);
}

#[test]
fn an_answer_for_a_client_is_reported() {
    let taken = axon_session_take_response_for_client(Some(ServiceResponseTake::Taken {
        size: 5,
        next_seq: 9,
        request_sequence: 3,
    }));
    assert_eq!(taken.reply.code, 0);
    assert_eq!(taken.reply.len, Some(5));
    assert_eq!(taken.request_sequence, Some(3));
    let small =
        axon_session_take_response_for_client(Some(ServiceResponseTake::BufferTooSmall {
            required: 50,
        }));
    assert_eq!((small.reply.code, small.reply.len), (-2, Some(50)));
    let none =
        axon_session_take_response_for_client(Some(ServiceResponseTake::NoMatch { next_seq: 9 }));
    assert_eq!(none.reply.next_seq, Some(9));
    assert!(none.reply.code < 0);
    assert_eq!(axon_session_take_response_for_client(None).reply.code, -1);
    assert_eq!(availability_code(Some(true)), 1);
    assert_eq!(availability_code(Some(false)), 0);
}

#[test]
fn test_service_roundtrip() {
    let mut requests = LocalPubSub::new(8, 256, 5).unwrap_or_else(|e| panic!("{}", e.message));
    let mut responses = LocalPubSub::new(8, 256, 6).unwrap_or_else(|e| panic!("{}", e.message));

    let request = b"service request from c_bridge";
    let seq = requests.publish(request, 1).unwrap();
    let mut out = vec![0u8; 256];
    let size = requests.message_size(seq);
    let taken = requests.receive(seq, &mut out);
    let reply = axon_session_take_request(256, size, taken);
    assert_eq!(reply.code, 0, "take_request should succeed");
    let out_len = reply.len.unwrap() as usize;
    assert_eq!(out_len, request.len());
    assert_eq!(&out[..out_len], request);

    let response = b"service response from c_bridge";
    let res_seq = responses.publish(response, 2).unwrap();
    let mut res_out = vec![0u8; 256];
    let size = responses.message_size(res_seq).ok();
    let taken = responses.receive(res_seq, &mut res_out).ok();
    let reply = axon_session_take_response(256, size, taken);
    assert_eq!(reply.code, 0, "take_response should succeed");
    let res_len = reply.len.unwrap() as usize;
    assert_eq!(res_len, response.len());
    assert_eq!(&res_out[..res_len], response);
}

#[test]
fn test_service_many_sequential_calls() {
    let mut requests = LocalPubSub::new(8, 4096, 5).unwrap_or_else(|e| panic!("{}", e.message));
    let mut responses = LocalPubSub::new(8, 4096, 6).unwrap_or_else(|e| panic!("{}", e.message));
    let mut out = vec![0u8; 4096];

    for i in 0..30 {
        let req_data = format!("request_{}", i);
        let req_bytes = req_data.as_bytes();
        let seq = requests.publish(req_bytes, i).unwrap();
        let size = requests.message_size(seq);
        let taken = requests.receive(seq, &mut out);
        let reply = axon_session_take_request(4096, size, taken);
        assert_eq!(reply.code, 0, "take_request {} should succeed", i);
        assert_eq!(
            reply.len.unwrap() as usize,
            req_bytes.len(),
            "request {} length mismatch",
            i
        );

        let resp_data = format!("response_{}", i);
        let resp_bytes = resp_data.as_bytes();
        let res_seq = responses.publish(resp_bytes, i).unwrap();
        let size = responses.message_size(res_seq).ok();
        let taken = responses.receive(res_seq, &mut out).ok();
        let reply = axon_session_take_response(4096, size, taken);
        assert_eq!(reply.code, 0, "take_response {} should succeed", i);
        assert_eq!(
            reply.len.unwrap() as usize,
            resp_bytes.len(),
            "response {} length mismatch",
            i
        );
    }
}

#[test]
fn test_bridge_loan_message() {
    let mut channel = LocalPubSub::new(8, 256, 5).unwrap_or_else(|e| panic!("{}", e.message));
    let (at, _size) = channel.borrow_buffer(64).unwrap();
    assert!(channel.commit_buffer(at, b"hello"));
    let received = channel.take_loaned(0).unwrap();
    assert_eq!(received.len(), 5);
    assert_eq!(received, b"hello");
}

#[test]
fn test_bridge_serialized_message_with_info() {
    let mut channel = LocalPubSub::new(8, 256, 5).unwrap_or_else(|e| panic!("{}", e.message));
    let data = b"info_test";
    let seq = channel.publish(data, 1).unwrap();
    let mut out = vec![0u8; 256];
    let received = channel.receive(seq, &mut out).ok();
    let reply = axon_session_take(256, true, received, None);
    assert_eq!(reply.code, 0);
    assert_eq!(reply.len.unwrap() as usize, data.len());
    let info = message_info(1_700_000_000, seq);
    assert!(info.source_timestamp > 0, "source timestamp should be set");
    assert!(
        info.received_timestamp > 0,
        "received timestamp should be set"
    );
    assert_eq!(info.sequence_number, seq as i64);
}

#[test]
fn test_service_large_response_with_qos() {
    let qos = qos_from_ffi("test_type", None, &input(1, 0, 1, 10));
    let mut requests = LocalPubSub::new(2, qos.max_message_size as u32, 5)
        .unwrap_or_else(|e| panic!("{}", e.message));
    let mut responses = LocalPubSub::new(2, qos.max_message_size as u32, 6)
        .unwrap_or_else(|e| panic!("{}", e.message));

    let large_response = {
        let mut data = Vec::with_capacity(500_000);
        for _ in 0..50_000 {
            data.extend_from_slice(b"0123456789");
        }
        data
    };
    assert!(large_response.len() > 400_000, "response should be large");

    let req = b"describe_params";
    let seq = requests.publish(req, 1).unwrap();
    let mut out = vec![0u8; 4096];
    let size = requests.message_size(seq);
    let taken = requests.receive(seq, &mut out);
    let reply = axon_session_take_request(4096, size, taken);
    assert_eq!(reply.code, 0, "take_request should succeed");
    assert_eq!(reply.len.unwrap() as usize, req.len());

    let res_seq = responses.publish(&large_response, 2).unwrap();
    let big_buf_len = large_response.len() + 4096;
    let mut big_buf = vec![0u8; big_buf_len];
    let size = responses.message_size(res_seq).ok();
    let taken = responses.receive(res_seq, &mut big_buf).ok();
    let reply = axon_session_take_response(big_buf_len as u32, size, taken);
    assert_eq!(reply.code, 0, "take_response should succeed");
    let actual_len = reply.len.unwrap() as usize;
    assert_eq!(actual_len, large_response.len());
    assert_eq!(&big_buf[..actual_len], &large_response[..]);
}

#[test]
fn test_create_destroy_session() {
    let mut sessions = Registry::new();
    let sid = sessions.axon_session_create(Session::new(1, 0));
    assert!(sid >= 0, "session ID should be non-negative");

    let ret = sessions.axon_session_destroy(sid as u64);
    assert_eq!(ret, 0, "destroy should succeed");
}

#[test]
fn test_session_shutdown_is_idempotent() {
    let mut sessions = Registry::new();
    let sid = sessions.axon_session_create(Session::new(1, 0)) as u64;
    assert_eq!(sessions.axon_session_shutdown(sid), 0);
    assert_eq!(sessions.axon_session_shutdown(sid), 0);
    assert!(sessions.sessions.get(&sid).unwrap().shutdown_requested);
    assert_eq!(sessions.axon_session_destroy(sid), 0);
}

#[test]
fn test_multiple_sessions_independent() {
    let mut sessions = Registry::new();
    let sid1 = sessions.axon_session_create(publishing("/c_bridge_multi_1")) as u64;
    let sid2 = sessions.axon_session_create(publishing("/c_bridge_multi_2")) as u64;
    assert_ne!(sid1, sid2);
    let topic = |s: &Session| s.topics[0].0.clone();
    assert_eq!(sessions.with_session(sid1).map(topic), Ok("/c_bridge_multi_1".to_string()));
    assert_eq!(sessions.axon_session_destroy(sid1), 0);
    assert_eq!(sessions.with_session(sid2).map(topic), Ok("/c_bridge_multi_2".to_string()));
    assert_eq!(
        sessions.with_session(sid1).err(),
        Some(format!("session {} not found (1 sessions exist)", sid1))
    );
    assert_eq!(sessions.axon_session_destroy(sid1), -1);
    assert_eq!(sessions.axon_session_shutdown(sid1), -1);
    assert_eq!(sessions.axon_session_destroy(sid2), 0);
}

#[test]
fn wait_sets_go_with_their_session() {
    let mut sessions = Registry::new();
    let a = sessions.axon_session_create(Session::new(1, 0)) as u64;
    let b = sessions.axon_session_create(Session::new(2, 0)) as u64;
    let first = sessions.axon_session_create_waitset(a) as u64;
    let second = sessions.axon_session_create_waitset(b) as u64;
    let third = sessions.axon_session_create_waitset(a) as u64;
    assert_eq!(sessions.axon_session_destroy_waitset(b, first), -1);
    assert_eq!(sessions.axon_session_destroy_waitset(a, first), 0);
    assert_eq!(sessions.axon_session_destroy_waitset(a, first), -1);
    assert_eq!(sessions.axon_session_destroy(a), 0);
    assert_eq!(sessions.axon_session_destroy_waitset(a, third), -1);
    assert_eq!(sessions.axon_session_destroy_waitset(b, second), 0);
}

#[test]
fn a_record_of_short_texts_takes_thirty_eight_bytes() {
    let mut session = publishing("/t");
    session.publishers[0].node_name = "n".to_string();
    session.publishers[0].node_namespace = "/".to_string();
    session.publishers[0].topic_type = "T".to_string();
    let reply = axon_session_get_publishers_info(Some(&session), "/t", 38);
    assert_eq!((reply.code, reply.count), (0, Some(1)));
    assert_eq!(reply.written.len(), 38);
    let reply = axon_session_get_publishers_info(Some(&session), "/t", 37);
    assert_eq!((reply.code, reply.count), (-2, Some(1)));
}
