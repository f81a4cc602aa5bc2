use axon_core::daemon::client::{frame_response, handle_client, request_body};
use axon_core::daemon::handler::handle_call;
use axon_core::daemon::rpc::{
    parse_events, parse_request, parse_value, serialize_fault, serialize_response, RpcError,
    RpcMethodCall, RpcMethodResponse, RpcStruct, RpcValue,
};
use axon_core::daemon::xml::{read_events, XmlEvent};
use axon_core::qos::{HistoryKind, QosProfile};
use axon_core::session::{Session, TopicEndpointInfo};

#[test]
fn test_unknown_method_returns_error() {
    let session = Session::new(42, 0);
    let call = RpcMethodCall {
        method_name: "nonexistent".into(),
        params: vec![],
    };
    let result = handle_call(&session, &call);
    assert!(result.is_err());
    assert!(result.unwrap_err().contains("unknown method"));
}

#[test]
fn test_get_node_names_local_only() {
    let session = Session::new(42, 0);
    let call = RpcMethodCall {
        method_name: "get_node_names".into(),
        params: vec![],
    };
    let result = handle_call(&session, &call).unwrap();
    let s = String::from_utf8_lossy(&result);
    assert!(s.contains("node_42"));
    assert!(s.contains("</methodResponse>"));
}

#[test]
fn test_get_topic_names_empty() {
    let session = Session::new(42, 0);
    let call = RpcMethodCall {
        method_name: "get_topic_names_and_types".into(),
        params: vec![RpcValue::Bool(false)],
    };
    let result = handle_call(&session, &call).unwrap();
    let s = String::from_utf8_lossy(&result);
    // Should be an empty array
    assert!(s.contains("<array>"));
}

#[test]
fn test_get_service_names_empty() {
    let session = Session::new(42, 0);
    let call = RpcMethodCall {
        method_name: "get_service_names_and_types".into(),
        params: vec![],
    };
    let result = handle_call(&session, &call).unwrap();
    let s = String::from_utf8_lossy(&result);
    assert!(s.contains("<array>"));
}

#[test]
fn test_get_publishers_info_missing_param() {
    let session = Session::new(42, 0);
    let call = RpcMethodCall {
        method_name: "get_publishers_info_by_topic".into(),
        params: vec![],
    };
    let result = handle_call(&session, &call);
    assert!(result.is_err());
    assert!(result.unwrap_err().contains("missing topic parameter"));
}

#[test]
fn test_int_roundtrip() {
    let resp = RpcMethodResponse {
        value: RpcValue::Int(42),
    };
    let xml = serialize_response(&resp).unwrap();
    let s = String::from_utf8_lossy(&xml);
    assert!(s.contains("<int>42</int>") || s.contains("<int>42"));
}

#[test]
fn test_bool_roundtrip() {
    let resp = RpcMethodResponse {
        value: RpcValue::Bool(true),
    };
    let xml = serialize_response(&resp).unwrap();
    let s = String::from_utf8_lossy(&xml);
    assert!(s.contains("<boolean>1</boolean>") || s.contains("<boolean>1"));
}

#[test]
fn test_struct_roundtrip() {
    let mut map = RpcStruct::new();
    map.insert("name".into(), RpcValue::String("test".into()));
    map.insert("count".into(), RpcValue::Int(3));
    let xml = serialize_response(&RpcMethodResponse {
        value: RpcValue::Struct(map),
    })
    .unwrap();
    let s = String::from_utf8_lossy(&xml);
    assert!(s.contains("<name>name</name>"));
    assert!(s.contains("<name>count</name>"));
}

    #[test]
    fn test_parse_basic_request() {
        let xml = br#"<?xml version="1.0"?>
<methodCall>
  <methodName>get_topic_names_and_types</methodName>
  <params>
    <param><value><boolean>0</boolean></value></param>
  </params>
</methodCall>"#;
        let call = parse_request(xml).unwrap();
        assert_eq!(call.method_name, "get_topic_names_and_types");
        assert_eq!(call.params.len(), 1);
        assert_eq!(call.params[0].as_bool(), Some(false));
    }

    #[test]
    fn test_parse_request_no_params() {
        let xml = br#"<?xml version="1.0"?>
<methodCall>
  <methodName>get_node_names</methodName>
</methodCall>"#;
        let call = parse_request(xml).unwrap();
        assert_eq!(call.method_name, "get_node_names");
        assert!(call.params.is_empty());
    }

#[test]
fn test_fault_serialization() {
    let xml = serialize_fault(-1, "method not found").unwrap();
    let s = String::from_utf8_lossy(&xml);
    assert!(s.contains("<int>-1</int>") || s.contains("<int>-1"));
    assert!(s.contains("method not found"));
}

#[test]
fn test_string_value() {
    let resp = RpcMethodResponse {
        value: RpcValue::String("hello".into()),
    };
    let xml = serialize_response(&resp).unwrap();
    let s = String::from_utf8_lossy(&xml);
    assert!(s.contains("<string>hello</string>") || s.contains("<string>hello"));
}

    #[test]
    fn test_parse_with_types() {
        let xml = br#"<?xml version="1.0"?>
<methodCall>
  <methodName>test</methodName>
  <params>
    <param><value><int>42</int></value></param>
    <param><value><string>foo</string></value></param>
  </params>
</methodCall>"#;
        let call = parse_request(xml).unwrap();
        assert_eq!(call.params.len(), 2);
        assert_eq!(call.params[0].as_i32(), Some(42));
        assert_eq!(call.params[1].as_str(), Some("foo"));
    }

    #[test]
    fn test_parse_array() {
        let xml = br#"<?xml version="1.0"?>
<methodCall>
  <methodName>test</methodName>
  <params>
    <param>
      <value>
        <array>
          <data>
            <value><string>a</string></value>
            <value><string>b</string></value>
          </data>
        </array>
      </value>
    </param>
  </params>
</methodCall>"#;
        let call = parse_request(xml).unwrap();
        let arr = call.params[0].as_array().unwrap();
        assert_eq!(arr.len(), 2);
        assert_eq!(arr[0].as_str(), Some("a"));
        assert_eq!(arr[1].as_str(), Some("b"));
    }

fn call(method: &str, params: Vec<RpcValue>) -> RpcMethodCall {
    RpcMethodCall {
        method_name: method.to_string(),
        params,
    }
}

fn text(xml: &[u8]) -> String {
    String::from_utf8_lossy(xml).into_owned()
}

fn failure(xml: &str) -> String {
    match parse_request(xml.as_bytes()) {
        Ok(c) => panic!("{c:?}"),
        Err(e) => e.to_text(),
    }
}

#[test]
fn a_document_is_written_with_its_declaration_and_indents() {
    let xml = serialize_response(&RpcMethodResponse {
        value: RpcValue::Int(-7),
    })
    .unwrap();
    assert_eq!(
        text(&xml),
        "<?xml version=\"1.0\" encoding=\"utf-8\"?>\n<methodResponse>\n  <params>\n    <param>\n      <value>\n        <int>-7</int>\n      </value>\n    </param>\n  </params>\n</methodResponse>"
    );
}

#[test]
fn what_is_written_can_be_read_back() {
    let value = {
        let mut s = RpcStruct::new();
        s.insert("b".to_string(), RpcValue::String("x < y & z".to_string()));
        s.insert("a".to_string(), RpcValue::Array(vec![RpcValue::Bool(true)]));
        RpcValue::Struct(s)
    };
    let xml = text(&serialize_response(&RpcMethodResponse { value }).unwrap());
    let start = xml.find("<params>").unwrap();
    let end = xml.find("</methodResponse>").unwrap();
    let request = format!(
        "<methodCall><methodName>m</methodName>{}</methodCall>",
        &xml[start..end]
    );
    let call = parse_request(request.as_bytes()).unwrap();
    let s = &call.params[0];
    assert_eq!(s.get("b").and_then(|v| v.as_str()), Some("x < y & z"));
    let a = s.get("a").and_then(|v| v.as_array()).unwrap();
    assert_eq!(a.len(), 1);
    assert_eq!(a[0].as_bool(), Some(true));
    assert!(s.get("c").is_none());
}

#[test]
fn members_stay_in_order_and_the_last_one_counts() {
    let mut s = RpcStruct::new();
    s.insert("b".to_string(), RpcValue::Int(1));
    s.insert("a".to_string(), RpcValue::Int(2));
    s.insert("b".to_string(), RpcValue::Int(3));
    assert_eq!(s.members.len(), 2);
    assert_eq!(s.members[0].name, "a");
    assert_eq!(s.members[1].name, "b");
    assert_eq!(s.get("b").and_then(|v| v.as_i32()), Some(3));
}

#[test]
fn a_value_without_a_type_is_a_text() {
    let call = parse_request(
        b"<methodCall><methodName>m</methodName><params><param><value>plain</value></param></params></methodCall>",
    )
    .unwrap();
    assert_eq!(call.params[0].as_str(), Some("plain"));
}

#[test]
fn what_is_wrong_with_a_request_is_said() {
    assert!(failure("<other/>").starts_with("expected <methodCall>, got "));
    assert_eq!(
        failure("<methodCall>x<methodName>m</methodName></methodCall>"),
        "unexpected text: x"
    );
    assert!(failure("<methodCall><params/></methodCall>").starts_with("expected <methodName>, got "));
    assert_eq!(
        failure("<methodCall><methodName>m</methodName><params><param><value><int>x1</int></value></param></params></methodCall>"),
        "invalid int: invalid digit found in string"
    );
    assert_eq!(
        failure("<methodCall><methodName>m</methodName><params><param><value><double>1</double></value></param></params></methodCall>"),
        "unknown XML-RPC type: double"
    );
    assert!(failure("<methodCall><methodName>m</methodName></wrong>").starts_with("XML error: "));
}

#[test]
fn events_are_read_up_to_the_end() {
    let ev = read_events(b"<a>t</a>");
    assert_eq!(ev.len(), 4);
    assert!(matches!(&ev[0], XmlEvent::Start(n, _) if n == b"a"));
    assert!(matches!(&ev[1], XmlEvent::Text(t, _) if t == "t"));
    assert!(matches!(&ev[2], XmlEvent::End(n, _) if n == b"a"));
    assert!(matches!(&ev[3], XmlEvent::DocumentEnd(_)));
    assert!(matches!(parse_events(&ev), Err(RpcError::Message(_))));
}

#[test]
fn each_event_of_a_document_is_told_apart() {
    let ev = read_events(b"<?xml version=\"1.0\"?><!-- c --><?go now?><a/><!DOCTYPE x>");
    assert_eq!(ev.len(), 5);
    assert!(matches!(&ev[0], XmlEvent::Declaration));
    assert!(matches!(&ev[1], XmlEvent::Comment));
    assert!(matches!(&ev[2], XmlEvent::Instruction));
    assert!(matches!(&ev[3], XmlEvent::Empty(n, _) if n == b"a"));
    assert!(matches!(&ev[4], XmlEvent::DocumentType(_)));
    let ev = read_events(b"<a><![CDATA[x]]></a>");
    assert_eq!(ev.len(), 2);
    assert!(matches!(&ev[1], XmlEvent::CharData(_)));
}

#[test]
fn a_written_value_is_read_back() {
    let mut inner = RpcStruct::new();
    inner.insert("b & <c>".into(), RpcValue::Bool(true));
    inner.insert("a".into(), RpcValue::Int(-2147483648));
    inner.insert("n".into(), RpcValue::Struct(RpcStruct::new()));
    let value = RpcValue::Array(vec![
        RpcValue::String(" \"x\" & 'y' <z>\r\n\u{e9} ".into()),
        RpcValue::String("  ".into()),
        RpcValue::Array(vec![]),
        RpcValue::Struct(inner),
        RpcValue::Bool(false),
    ]);
    let copy = value.clone();
    let doc = serialize_response(&RpcMethodResponse { value }).unwrap();
    let ev = read_events(&doc);
    let start = ev
        .iter()
        .position(|e| matches!(e, XmlEvent::Start(n, _) if n == b"value"))
        .unwrap();
    let (read, _) = parse_value(&ev, start + 1).unwrap_or_else(|e| panic!("{}", e.to_text()));
    assert_eq!(format!("{read:?}"), format!("{copy:?}"));
    let text = String::from_utf8(doc).unwrap();
    let call = text
        .replace("<methodResponse>", "<methodCall><methodName>m</methodName>")
        .replace("</methodResponse>", "</methodCall>");
    let call = parse_request(call.as_bytes()).unwrap();
    assert_eq!(format!("{:?}", call.params), format!("{:?}", vec![copy]));
}

fn endpoint(topic: &str) -> TopicEndpointInfo {
    TopicEndpointInfo {
        node_name: "talker".to_string(),
        node_namespace: "/ns".to_string(),
        topic_type: "std_msgs/msg/String".to_string(),
        topic_name: topic.to_string(),
        transport_kind: "shm".to_string(),
        gid: [0xab; 16],
        qos: QosProfile {
            history: HistoryKind::KeepLast { depth: 7 },
            ..QosProfile::default_command()
        },
    }
}

#[test]
fn the_publishers_of_a_topic_are_told() {
    let mut session = Session::new(1, 0);
    session.publishers.push(endpoint("/chatter"));
    session.publishers.push(endpoint("/other"));
    let c = call(
        "get_publishers_info_by_topic",
        vec![RpcValue::String("/chatter".to_string())],
    );
    let xml = text(&handle_call(&session, &c).unwrap());
    assert_eq!(xml.matches("talker").count(), 1);
    assert!(xml.contains("abababababababababababababababab"));
    assert!(xml.contains("Reliable"));
    let c = call(
        "get_subscriptions_info_by_topic",
        vec![RpcValue::String("/chatter".to_string())],
    );
    assert!(!text(&handle_call(&session, &c).unwrap()).contains("talker"));
}

#[test]
fn a_client_gets_a_framed_answer() {
    let session = Session::new(42, 0);
    let body = "<methodCall><methodName>get_node_names</methodName></methodCall>";
    let request = format!("POST / HTTP/1.1\r\nHost: x\r\n\r\n{body}");
    let answer = text(&handle_client(&session, request.as_bytes()).unwrap());
    let (head, doc) = answer.split_once("\r\n\r\n").unwrap();
    assert_eq!(
        head,
        format!(
            "HTTP/1.1 200 OK\r\nContent-Type: text/xml\r\nContent-Length: {}\r\nConnection: close",
            doc.len()
        )
    );
    assert!(doc.contains("node_42"));
}

#[test]
fn a_client_is_told_of_faults() {
    let session = Session::new(42, 0);
    let answer = text(&handle_client(&session, b"\r\n\r\n<methodCall><methodName>x</methodName></methodCall>").unwrap());
    assert!(answer.contains("<fault>"));
    assert!(answer.contains("unknown method"));
    let answer = text(&handle_client(&session, b"\r\n\r\nnonsense").unwrap());
    assert!(answer.contains("parse error: unexpected text: nonsense"));
    assert!(handle_client(&session, b"no empty line").is_none());
    assert!(handle_client(&session, b"").is_none());
}

#[test]
fn the_body_of_a_request_ends_at_a_zero() {
    assert_eq!(request_body(b"a\r\n\r\nbody\0rest"), Some(&b"body"[..]));
    assert_eq!(request_body(b"a\r\n\r\n\r\n\r\n"), Some(&b"\r\n\r\n"[..]));
    assert_eq!(request_body(b"\r\n\r\n"), Some(&b""[..]));
    assert_eq!(request_body(b"\r\n\r"), None);
    assert!(frame_response(b"xyz").ends_with(b"\r\n\r\nxyz"));
}
