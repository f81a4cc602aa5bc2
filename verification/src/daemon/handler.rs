//! The calls that the daemon answers.
use crate::bytes::from_two_complement;
#[allow(unused_imports)]
use crate::bytes;
#[allow(unused_imports)]
use crate::daemon::rpc;
use crate::daemon::rpc::{
    serialize_response, CallView, RpcMethodCall, RpcMethodResponse, RpcStruct,
    RpcValue, RpcView,
};
#[allow(unused_imports)]
use crate::daemon::xml;
use crate::qos::{Durability, HistoryKind, Reliability};
#[allow(unused_imports)]
use crate::session;
use crate::session::{EndpointView, NameView, Session, SessionView, TopicEndpointInfo};
#[allow(unused_imports)]
use crate::text;
use crate::text::{push_char, push_decimal, text_equal};
use vstd::prelude::*;

verus! {

/// A count as a 32-bit number, its high bits dropped.
pub open spec fn count_value(n: nat) -> int {
    bytes::signed_32(n % 0x1_0000_0000)
}

/// What the daemon says of a topic.
pub open spec fn topic_entry(s: SessionView, t: NameView) -> RpcView {
    let e0 = rpc::with_member(Seq::empty(), "name"@, RpcView::Text(t.name));
    let e1 = rpc::with_member(e0, "type"@, RpcView::Text(t.kind));
    let e2 = rpc::with_member(
        e1,
        "publishers_count"@,
        RpcView::Int(count_value(session::endpoints_of(s.publishers, t.name).len())),
    );
    let e3 = rpc::with_member(
        e2,
        "subscribers_count"@,
        RpcView::Int(count_value(session::endpoints_of(s.subscriptions, t.name).len())),
    );
    RpcView::Struct(e3)
}

/// Whether a topic that was ever seen has an endpoint now.
pub open spec fn topic_live(s: SessionView, t: NameView) -> bool {
    ||| count_value(session::endpoints_of(s.publishers, t.name).len()) != 0
    ||| count_value(session::endpoints_of(s.subscriptions, t.name).len()) != 0
}

/// What the daemon says of the live topics among `topics`.
pub open spec fn topic_entries(s: SessionView, topics: Seq<NameView>) -> Seq<RpcView>
    decreases topics.len(),
{
    if topics.len() == 0 {
        Seq::empty()
    } else if topic_live(s, topics.last()) {
        topic_entries(s, topics.drop_last()).push(topic_entry(s, topics.last()))
    } else {
        topic_entries(s, topics.drop_last())
    }
}

/// The name of a node with its namespace.
pub open spec fn full_name(n: NameView) -> Seq<char> {
    if n.kind == "/"@ {
        "/"@ + n.name
    } else {
        n.kind + "/"@ + n.name
    }
}

/// What the daemon says of a node.
pub open spec fn node_entry(n: NameView) -> RpcView {
    let e0 = rpc::with_member(Seq::empty(), "name"@, RpcView::Text(n.name));
    let e1 = rpc::with_member(e0, "namespace"@, RpcView::Text(n.kind));
    let e2 = rpc::with_member(e1, "full_name"@, RpcView::Text(full_name(n)));
    RpcView::Struct(e2)
}

/// What the daemon says of a service.
pub open spec fn service_entry(n: NameView) -> RpcView {
    let e0 = rpc::with_member(Seq::empty(), "name"@, RpcView::Text(n.name));
    let e1 = rpc::with_member(e0, "type"@, RpcView::Text(n.kind));
    RpcView::Struct(e1)
}

/// A hexadecimal digit, in lower case.
pub open spec fn hex_char(n: int) -> char {
    if n < 10 {
        ('0' as int + n) as char
    } else {
        ('a' as int + n - 10) as char
    }
}

/// Bytes in hexadecimal, two digits each.
pub open spec fn hex_text(b: Seq<u8>) -> Seq<char>
    decreases b.len(),
{
    if b.len() == 0 {
        Seq::empty()
    } else {
        hex_text(b.drop_last()).push(hex_char(b.last() as int / 16)).push(
            hex_char(b.last() as int % 16),
        )
    }
}

/// The name of a reliability.
pub open spec fn reliability_text(r: Reliability) -> Seq<char> {
    match r {
        Reliability::BestEffort => "BestEffort"@,
        Reliability::Reliable => "Reliable"@,
    }
}

/// The name of a durability.
pub open spec fn durability_text(d: Durability) -> Seq<char> {
    match d {
        Durability::Volatile => "Volatile"@,
        Durability::TransientLocal => "TransientLocal"@,
    }
}

/// The rendering of a history.
pub open spec fn history_text(h: HistoryKind) -> Seq<char> {
    match h {
        HistoryKind::KeepLast { depth } => "KeepLast { depth: "@ + text::decimal(depth as nat)
            + " }"@,
        HistoryKind::KeepAll => "KeepAll"@,
    }
}

/// What the daemon says of an endpoint's quality of service.
pub open spec fn qos_entry(i: EndpointView) -> RpcView {
    let q0 = rpc::with_member(
        Seq::empty(),
        "reliability"@,
        RpcView::Text(reliability_text(i.qos.reliability)),
    );
    let q1 = rpc::with_member(
        q0,
        "durability"@,
        RpcView::Text(durability_text(i.qos.durability)),
    );
    let q2 = rpc::with_member(q1, "history"@, RpcView::Text(history_text(i.qos.history)));
    RpcView::Struct(q2)
}

/// What the daemon says of an endpoint.
pub open spec fn endpoint_entry(i: EndpointView) -> RpcView {
    let e0 = rpc::with_member(Seq::empty(), "node_name"@, RpcView::Text(i.node_name));
    let e1 = rpc::with_member(e0, "node_namespace"@, RpcView::Text(i.node_namespace));
    let e2 = rpc::with_member(e1, "topic_type"@, RpcView::Text(i.topic_type));
    let e3 = rpc::with_member(e2, "topic_name"@, RpcView::Text(i.topic_name));
    let e4 = rpc::with_member(e3, "transport_kind"@, RpcView::Text(i.transport_kind));
    let e5 = rpc::with_member(e4, "gid"@, RpcView::Text(hex_text(i.gid)));
    let e6 = rpc::with_member(e5, "qos"@, qos_entry(i));
    RpcView::Struct(e6)
}

/// What the daemon says of endpoints.
pub open spec fn endpoint_entries(s: Seq<EndpointView>) -> RpcView {
    RpcView::Array(Seq::new(s.len(), |i: int| endpoint_entry(s[i])))
}

/// The topic that a call asks about: its first parameter, a text.
pub open spec fn asked_topic(c: CallView) -> Option<Seq<char>> {
    if c.params.len() > 0 {
        match c.params[0] {
            RpcView::Text(t) => Some(t),
            _ => None,
        }
    } else {
        None
    }
}

/// The value that answers a call, or what is wrong with it.
pub open spec fn answer(s: SessionView, c: CallView) -> Result<RpcView, Seq<char>> {
    if c.method_name == "get_topic_names_and_types"@ {
        Ok(RpcView::Array(topic_entries(s, s.topics)))
    } else if c.method_name == "get_node_names"@ {
        Ok(RpcView::Array(Seq::new(s.nodes.len(), |i: int| node_entry(s.nodes[i]))))
    } else if c.method_name == "get_service_names_and_types"@ {
        Ok(RpcView::Array(Seq::new(s.services.len(), |i: int| service_entry(s.services[i]))))
    } else if c.method_name == "get_publishers_info_by_topic"@ {
        match asked_topic(c) {
            Some(t) => Ok(endpoint_entries(session::endpoints_of(s.publishers, t))),
            None => Err("missing topic parameter"@),
        }
    } else if c.method_name == "get_subscriptions_info_by_topic"@ {
        match asked_topic(c) {
            Some(t) => Ok(endpoint_entries(session::endpoints_of(s.subscriptions, t))),
            None => Err("missing topic parameter"@),
        }
    } else {
        Err("unknown method: "@ + c.method_name)
    }
}

/// A count as a 32-bit number.
fn small_count(n: usize) -> (r: i32)
    ensures
        r == count_value(n as nat),
{
    from_two_complement((n as u64 % 0x1_0000_0000) as u32)
}

/// Adds a value to a list.
fn add_value(list: &mut Vec<RpcValue>, v: RpcValue)
    ensures
        rpc::values_view(final(list)@) == rpc::values_view(old(list)@).push(v@),
{
    let ghost had = list@;
    list.push(v);
    proof {
        assert(list@.drop_last() =~= had);
    }
}

/// Answers `get_topic_names_and_types`: the topics that have an endpoint. A topic
/// stays known after its last endpoint has gone, so those without one are left out.
fn handle_get_topic_names_and_types(s: &Session) -> (r: RpcMethodResponse)
    ensures
        r.value@ == RpcView::Array(topic_entries(s@, s@.topics)),
{
    let ghost topics = s@.topics;
    let mut result: Vec<RpcValue> = Vec::new();
    let mut i: usize = 0;
    proof {
        assert(topics.subrange(0, 0) =~= Seq::empty());
    }
    while i < s.topics.len()
        invariant
            i <= s.topics@.len(),
            topics == s@.topics,
            rpc::values_view(result@) == topic_entries(s@, topics.subrange(0, i as int)),
        decreases s.topics.len() - i,
    {
        proof {
            assert(topics.subrange(0, i + 1).drop_last() =~= topics.subrange(0, i as int));
            assert(topics.subrange(0, i + 1).last() == topics[i as int]);
        }
        let name = &s.topics[i].0;
        let kind = &s.topics[i].1;
        let pubs_count: i32 = small_count(s.count_publishers(name.as_str()));
        let subs_count: i32 = small_count(s.count_subscribers(name.as_str()));
        if pubs_count != 0 || subs_count != 0 {
            let mut entry = RpcStruct::new();
            entry.insert("name".to_owned(), RpcValue::String(name.clone()));
            entry.insert("type".to_owned(), RpcValue::String(kind.clone()));
            entry.insert("publishers_count".to_owned(), RpcValue::Int(pubs_count));
            entry.insert("subscribers_count".to_owned(), RpcValue::Int(subs_count));
            add_value(&mut result, RpcValue::Struct(entry));
        }
        i += 1;
    }
    proof {
        assert(topics.subrange(0, i as int) =~= topics);
    }
    RpcMethodResponse { value: RpcValue::Array(result) }
}

/// Answers `get_node_names`.
fn handle_get_node_names(s: &Session) -> (r: RpcMethodResponse)
    ensures
        r.value@ == RpcView::Array(Seq::new(s@.nodes.len(), |i: int| node_entry(s@.nodes[i]))),
{
    let ghost all = Seq::new(s@.nodes.len(), |i: int| node_entry(s@.nodes[i]));
    let mut result: Vec<RpcValue> = Vec::new();
    let mut i: usize = 0;
    proof {
        assert(all.subrange(0, 0) =~= Seq::empty());
    }
    while i < s.nodes.len()
        invariant
            i <= s.nodes@.len(),
            all == Seq::new(s@.nodes.len(), |i: int| node_entry(s@.nodes[i])),
            rpc::values_view(result@) == all.subrange(0, i as int),
        decreases s.nodes.len() - i,
    {
        let name = &s.nodes[i].0;
        let ns = &s.nodes[i].1;
        let mut entry = RpcStruct::new();
        entry.insert("name".to_owned(), RpcValue::String(name.clone()));
        entry.insert("namespace".to_owned(), RpcValue::String(ns.clone()));
        let mut full = String::new();
        if !text_equal(ns.as_str(), "/") {
            full.append(ns.as_str());
        }
        full.append("/");
        full.append(name.as_str());
        proof {
            assert(full@ =~= full_name(s@.nodes[i as int]));
        }
        entry.insert("full_name".to_owned(), RpcValue::String(full));
        add_value(&mut result, RpcValue::Struct(entry));
        proof {
            assert(all.subrange(0, i + 1) =~= all.subrange(0, i as int).push(all[i as int]));
        }
        i += 1;
    }
    proof {
        assert(all.subrange(0, i as int) =~= all);
    }
    RpcMethodResponse { value: RpcValue::Array(result) }
}

/// Answers `get_service_names_and_types`.
fn handle_get_service_names_and_types(s: &Session) -> (r: RpcMethodResponse)
    ensures
        r.value@ == RpcView::Array(
            Seq::new(s@.services.len(), |i: int| service_entry(s@.services[i])),
        ),
{
    let ghost all = Seq::new(s@.services.len(), |i: int| service_entry(s@.services[i]));
    let mut result: Vec<RpcValue> = Vec::new();
    let mut i: usize = 0;
    proof {
        assert(all.subrange(0, 0) =~= Seq::empty());
    }
    while i < s.services.len()
        invariant
            i <= s.services@.len(),
            all == Seq::new(s@.services.len(), |i: int| service_entry(s@.services[i])),
            rpc::values_view(result@) == all.subrange(0, i as int),
        decreases s.services.len() - i,
    {
        let mut entry = RpcStruct::new();
        entry.insert("name".to_owned(), RpcValue::String(s.services[i].0.clone()));
        entry.insert("type".to_owned(), RpcValue::String(s.services[i].1.clone()));
        add_value(&mut result, RpcValue::Struct(entry));
        proof {
            assert(all.subrange(0, i + 1) =~= all.subrange(0, i as int).push(all[i as int]));
        }
        i += 1;
    }
    proof {
        assert(all.subrange(0, i as int) =~= all);
    }
    RpcMethodResponse { value: RpcValue::Array(result) }
}

/// A hexadecimal digit.
fn hex_digit(n: u8) -> (r: char)
    requires
        n < 16,
    ensures
        r == hex_char(n as int),
{
    if n < 10 {
        (48 + n) as char
    } else {
        (97 + (n - 10)) as char
    }
}

/// Bytes in hexadecimal.
fn hex_of(b: &[u8]) -> (r: String)
    ensures
        r@ == hex_text(b@),
{
    let mut s = String::new();
    let mut i: usize = 0;
    proof {
        assert(b@.subrange(0, 0) =~= Seq::empty());
    }
    while i < b.len()
        invariant
            i <= b@.len(),
            s@ == hex_text(b@.subrange(0, i as int)),
        decreases b.len() - i,
    {
        proof {
            assert(b@.subrange(0, i + 1).drop_last() =~= b@.subrange(0, i as int));
        }
        push_char(&mut s, hex_digit(b[i] / 16));
        push_char(&mut s, hex_digit(b[i] % 16));
        i += 1;
    }
    proof {
        assert(b@.subrange(0, i as int) =~= b@);
    }
    s
}

/// The rendering of a history.
fn history_of(h: HistoryKind) -> (r: String)
    ensures
        r@ == history_text(h),
{
    match h {
        HistoryKind::KeepLast { depth } => {
            let mut s = "KeepLast { depth: ".to_owned();
            push_decimal(&mut s, depth as u64);
            s.append(" }");
            s
        },
        HistoryKind::KeepAll => "KeepAll".to_owned(),
    }
}

/// What the daemon says of an endpoint.
fn endpoint_info_to_rpc(info: &TopicEndpointInfo) -> (r: RpcValue)
    ensures
        r@ == endpoint_entry(info@),
{
    let mut entry = RpcStruct::new();
    entry.insert("node_name".to_owned(), RpcValue::String(info.node_name.clone()));
    entry.insert("node_namespace".to_owned(), RpcValue::String(info.node_namespace.clone()));
    entry.insert("topic_type".to_owned(), RpcValue::String(info.topic_type.clone()));
    entry.insert("topic_name".to_owned(), RpcValue::String(info.topic_name.clone()));
    entry.insert("transport_kind".to_owned(), RpcValue::String(info.transport_kind.clone()));
    entry.insert("gid".to_owned(), RpcValue::String(hex_of(info.gid.as_slice())));
    let mut qos_map = RpcStruct::new();
    let reliability = match info.qos.reliability {
        Reliability::BestEffort => "BestEffort",
        Reliability::Reliable => "Reliable",
    };
    let durability = match info.qos.durability {
        Durability::Volatile => "Volatile",
        Durability::TransientLocal => "TransientLocal",
    };
    qos_map.insert("reliability".to_owned(), RpcValue::String(reliability.to_owned()));
    qos_map.insert("durability".to_owned(), RpcValue::String(durability.to_owned()));
    qos_map.insert("history".to_owned(), RpcValue::String(history_of(info.qos.history)));
    entry.insert("qos".to_owned(), RpcValue::Struct(qos_map));
    RpcValue::Struct(entry)
}

/// What the daemon says of endpoints.
fn endpoint_infos_to_rpc(info: &Vec<&TopicEndpointInfo>) -> (r: RpcMethodResponse)
    ensures
        r.value@ == endpoint_entries(session::refs_view(info@)),
{
    let ghost views = session::refs_view(info@);
    let ghost all = Seq::new(views.len(), |i: int| endpoint_entry(views[i]));
    let mut result: Vec<RpcValue> = Vec::new();
    let mut i: usize = 0;
    proof {
        assert(all.subrange(0, 0) =~= Seq::empty());
    }
    while i < info.len()
        invariant
            i <= info@.len(),
            views == session::refs_view(info@),
            all == Seq::new(views.len(), |i: int| endpoint_entry(views[i])),
            rpc::values_view(result@) == all.subrange(0, i as int),
        decreases info.len() - i,
    {
        let v = endpoint_info_to_rpc(info[i]);
        add_value(&mut result, v);
        proof {
            assert(all.subrange(0, i + 1) =~= all.subrange(0, i as int).push(all[i as int]));
        }
        i += 1;
    }
    proof {
        assert(all.subrange(0, i as int) =~= all);
    }
    RpcMethodResponse { value: RpcValue::Array(result) }
}

/// The topic that a call asks about.
fn topic_parameter(call: &RpcMethodCall) -> (r: Option<&str>)
    ensures
        match r {
            Some(t) => asked_topic(call@) == Some(t@),
            None => asked_topic(call@) is None,
        },
{
    proof {
        rpc::lemma_values_view(call.params@);
    }
    if call.params.len() > 0 {
        call.params[0].as_str()
    } else {
        None
    }
}

/// Answers `get_publishers_info_by_topic`.
fn handle_get_publishers_info_by_topic(s: &Session, call: &RpcMethodCall) -> (r: Result<
    RpcMethodResponse,
    String,
>)
    ensures
        match (r, asked_topic(call@)) {
            (Ok(v), Some(t)) => v.value@ == endpoint_entries(
                session::endpoints_of(s@.publishers, t),
            ),
            (Err(e), None) => e@ == "missing topic parameter"@,
            _ => false,
        },
{
    match topic_parameter(call) {
        Some(topic) => Ok(endpoint_infos_to_rpc(&s.get_publishers_info(topic))),
        None => Err("missing topic parameter".to_owned()),
    }
}

/// Answers `get_subscriptions_info_by_topic`.
fn handle_get_subscriptions_info_by_topic(s: &Session, call: &RpcMethodCall) -> (r: Result<
    RpcMethodResponse,
    String,
>)
    ensures
        match (r, asked_topic(call@)) {
            (Ok(v), Some(t)) => v.value@ == endpoint_entries(
                session::endpoints_of(s@.subscriptions, t),
            ),
            (Err(e), None) => e@ == "missing topic parameter"@,
            _ => false,
        },
{
    match topic_parameter(call) {
        Some(topic) => Ok(endpoint_infos_to_rpc(&s.get_subscriptions_info(topic))),
        None => Err("missing topic parameter".to_owned()),
    }
}

/// The value that answers a call, or what is wrong with it.
pub fn answer_call(s: &Session, call: &RpcMethodCall) -> (r: Result<RpcMethodResponse, String>)
    ensures
        match r {
            Ok(v) => answer(s@, call@) == Ok::<_, Seq<char>>(v.value@),
            Err(e) => answer(s@, call@) == Err::<RpcView, _>(e@),
        },
{
    let method = call.method_name.as_str();
    if text_equal(method, "get_topic_names_and_types") {
        Ok(handle_get_topic_names_and_types(s))
    } else if text_equal(method, "get_node_names") {
        Ok(handle_get_node_names(s))
    } else if text_equal(method, "get_service_names_and_types") {
        Ok(handle_get_service_names_and_types(s))
    } else if text_equal(method, "get_publishers_info_by_topic") {
        handle_get_publishers_info_by_topic(s, call)
    } else if text_equal(method, "get_subscriptions_info_by_topic") {
        handle_get_subscriptions_info_by_topic(s, call)
    } else {
        let mut e = "unknown method: ".to_owned();
        e.append(method);
        Err(e)
    }
}

/// The document that answers a call, or what is wrong with the call.
pub fn handle_call(session: &Session, call: &RpcMethodCall) -> (r: Result<Vec<u8>, String>)
    ensures
        match (r, answer(session@, call@)) {
            (Ok(doc), Ok(v)) => doc@ == xml::xml_document(rpc::response_events(v)),
            (Err(e), Err(m)) => e@ == m,
            _ => false,
        },
{
    let result = answer_call(session, call)?;
    match serialize_response(&result) {
        Ok(doc) => Ok(doc),
        Err(e) => {
            let mut m = "serialization error: ".to_owned();
            m.append(e.to_text().as_str());
            Err(m)
        },
    }
}

/// A topic that was ever seen is live exactly if a publisher or a subscription of it is
/// there now.
pub proof fn law_live_topic_has_an_endpoint(s: SessionView, t: NameView)
    requires
        s.publishers.len() <= u32::MAX,
        s.subscriptions.len() <= u32::MAX,
    ensures
        topic_live(s, t) <==> (exists|i: int|
            0 <= i < s.publishers.len() && (#[trigger] s.publishers[i]).topic_name == t.name) || (
        exists|i: int|
            0 <= i < s.subscriptions.len() && (#[trigger] s.subscriptions[i]).topic_name == t.name),
{
    lemma_has_endpoint(s.publishers, t.name);
    lemma_has_endpoint(s.subscriptions, t.name);
}

proof fn lemma_has_endpoint(s: Seq<EndpointView>, topic: Seq<char>)
    ensures
        session::endpoints_of(s, topic).len() > 0 <==> exists|i: int|
            0 <= i < s.len() && (#[trigger] s[i]).topic_name == topic,
        session::endpoints_of(s, topic).len() <= s.len(),
{
    let of = session::endpoints_of(s, topic);
    if of.len() > 0 {
        session::law_endpoints_of_exactly(s, topic, of[0]);
        assert(of.contains(of[0]));
        let i = choose|i: int| 0 <= i < s.len() && s[i] == of[0];
        assert(s[i].topic_name == topic);
    }
    if exists|i: int| 0 <= i < s.len() && (#[trigger] s[i]).topic_name == topic {
        let i = choose|i: int| 0 <= i < s.len() && (#[trigger] s[i]).topic_name == topic;
        session::law_endpoints_of_exactly(s, topic, s[i]);
        assert(s.contains(s[i]));
    }
    if s.len() > 0 {
        session::law_endpoints_of_exactly(s, topic, s[0]);
    } else {
        assert(session::endpoints_of(s, topic).len() == 0);
    }
}

/// The live topics are told in their order, and no others.
pub proof fn law_live_topics_are_told(
    s: SessionView,
    a: Seq<NameView>,
    b: Seq<NameView>,
    t: NameView,
)
    ensures
        topic_entries(s, a + b) == topic_entries(s, a) + topic_entries(s, b),
        topic_live(s, t) ==> topic_entries(s, seq![t]).len() == 1,
        !topic_live(s, t) ==> topic_entries(s, seq![t]).len() == 0,
    decreases b.len(),
{
    assert(seq![t].drop_last() =~= Seq::empty());
    assert(topic_entries(s, Seq::empty()) =~= Seq::empty());
    if b.len() == 0 {
        assert(a + b =~= a);
        assert(topic_entries(s, a) + topic_entries(s, b) =~= topic_entries(s, a));
    } else {
        law_live_topics_are_told(s, a, b.drop_last(), t);
        assert((a + b).drop_last() =~= a + b.drop_last());
        assert(topic_entries(s, a + b) =~= topic_entries(s, a) + topic_entries(s, b));
    }
}

/// What is told of a topic: its name, its type, and how many publishers and
/// subscriptions it has.
pub proof fn law_topic_entry_members(s: SessionView, t: NameView)
    requires
        s.publishers.len() <= i32::MAX,
        s.subscriptions.len() <= i32::MAX,
    ensures
        topic_entry(s, t) matches RpcView::Struct(m) && rpc::member_value(m, "name"@) == Some(
            RpcView::Text(t.name),
        ) && rpc::member_value(m, "type"@) == Some(RpcView::Text(t.kind)) && rpc::member_value(
            m,
            "publishers_count"@,
        ) == Some(RpcView::Int(session::endpoints_of(s.publishers, t.name).len() as int))
            && rpc::member_value(m, "subscribers_count"@) == Some(
            RpcView::Int(session::endpoints_of(s.subscriptions, t.name).len() as int),
        ),
{
    reveal_strlit("name");
    reveal_strlit("type");
    reveal_strlit("publishers_count");
    reveal_strlit("subscribers_count");
    assert("name"@[0] != "type"@[0]);
    lemma_has_endpoint(s.publishers, t.name);
    lemma_has_endpoint(s.subscriptions, t.name);
    let p = session::endpoints_of(s.publishers, t.name).len();
    let q = session::endpoints_of(s.subscriptions, t.name).len();
    assert(count_value(p) == p && count_value(q) == q);
    let none: Seq<rpc::MemberView> = Seq::empty();
    let v0 = RpcView::Text(t.name);
    let v1 = RpcView::Text(t.kind);
    let v2 = RpcView::Int(p as int);
    let v3 = RpcView::Int(q as int);
    let e0 = rpc::with_member(none, "name"@, v0);
    let e1 = rpc::with_member(e0, "type"@, v1);
    let e2 = rpc::with_member(e1, "publishers_count"@, v2);
    rpc::law_set_member_is_found(none, "name"@, v0);
    rpc::law_set_member_is_found(e0, "type"@, v1);
    rpc::law_set_member_is_found(e1, "publishers_count"@, v2);
    rpc::law_set_member_is_found(e2, "subscribers_count"@, v3);
    rpc::law_other_members_stay(e0, "type"@, v1, "name"@);
    rpc::law_other_members_stay(e1, "publishers_count"@, v2, "name"@);
    rpc::law_other_members_stay(e2, "subscribers_count"@, v3, "name"@);
    rpc::law_other_members_stay(e1, "publishers_count"@, v2, "type"@);
    rpc::law_other_members_stay(e2, "subscribers_count"@, v3, "type"@);
    rpc::law_other_members_stay(e2, "subscribers_count"@, v3, "publishers_count"@);
}

/// What is told of a node: its name, its namespace, and the two in one, with a single
/// slash where the namespace is the root.
pub proof fn law_node_entry_members(n: NameView)
    ensures
        node_entry(n) matches RpcView::Struct(m) && rpc::member_value(m, "name"@) == Some(
            RpcView::Text(n.name),
        ) && rpc::member_value(m, "namespace"@) == Some(RpcView::Text(n.kind)) && rpc::member_value(
            m,
            "full_name"@,
        ) == Some(RpcView::Text(full_name(n))),
        n.kind == seq!['/'] ==> full_name(n) == seq!['/'] + n.name,
        n.kind != seq!['/'] ==> full_name(n) == n.kind + seq!['/'] + n.name,
        service_entry(n) matches RpcView::Struct(m) && rpc::member_value(m, "name"@) == Some(
            RpcView::Text(n.name),
        ) && rpc::member_value(m, "type"@) == Some(RpcView::Text(n.kind)),
{
    reveal_strlit("name");
    reveal_strlit("namespace");
    reveal_strlit("full_name");
    reveal_strlit("type");
    reveal_strlit("/");
    assert("/"@ =~= seq!['/']);
    assert("namespace"@[0] != "full_name"@[0]);
    assert("name"@[0] != "type"@[0]);
    let none: Seq<rpc::MemberView> = Seq::empty();
    let v0 = RpcView::Text(n.name);
    let v1 = RpcView::Text(n.kind);
    let v2 = RpcView::Text(full_name(n));
    let e0 = rpc::with_member(none, "name"@, v0);
    let e1 = rpc::with_member(e0, "namespace"@, v1);
    rpc::law_set_member_is_found(none, "name"@, v0);
    rpc::law_set_member_is_found(e0, "namespace"@, v1);
    rpc::law_set_member_is_found(e1, "full_name"@, v2);
    rpc::law_other_members_stay(e0, "namespace"@, v1, "name"@);
    rpc::law_other_members_stay(e1, "full_name"@, v2, "name"@);
    rpc::law_other_members_stay(e1, "full_name"@, v2, "namespace"@);
    rpc::law_set_member_is_found(e0, "type"@, v1);
    rpc::law_other_members_stay(e0, "type"@, v1, "name"@);
}

/// Bytes in hexadecimal take two digits each, the higher half first, from which they can
/// be told again.
pub proof fn law_hex_text_of_bytes(b: Seq<u8>, i: int)
    requires
        0 <= i < b.len(),
    ensures
        hex_text(b).len() == 2 * b.len(),
        hex_text(b)[2 * i] == hex_char(b[i] as int / 16),
        hex_text(b)[2 * i + 1] == hex_char(b[i] as int % 16),
        forall|n: int| 0 <= n < 10 ==> #[trigger] hex_char(n) as int == 48 + n,
        forall|n: int| 10 <= n < 16 ==> #[trigger] hex_char(n) as int == 87 + n,
    decreases b.len(),
{
    let init = b.drop_last();
    if init.len() == 0 {
        assert(hex_text(init).len() == 0);
    } else {
        law_hex_text_of_bytes(init, if i < init.len() {
            i
        } else {
            0
        });
    }
}

/// The names of the policies are their own.
pub proof fn law_policies_are_named(r: Reliability, d: Durability)
    ensures
        r is Reliable <==> reliability_text(r) == "Reliable"@,
        r is BestEffort <==> reliability_text(r) == "BestEffort"@,
        d is TransientLocal <==> durability_text(d) == "TransientLocal"@,
        d is Volatile <==> durability_text(d) == "Volatile"@,
{
    reveal_strlit("Reliable");
    reveal_strlit("BestEffort");
    reveal_strlit("TransientLocal");
    reveal_strlit("Volatile");
    assert("Reliable"@.len() == 8 && "BestEffort"@.len() == 10);
    assert("TransientLocal"@.len() == 14 && "Volatile"@.len() == 8);
}

/// Whoever asks for the publishers of a topic is told of publishers only, whatever
/// subscriptions there are, and the other way round; in each case of as many as the
/// topic has, and of the topic that was asked for.
pub proof fn law_publishers_and_subscriptions_are_told_apart(
    s: SessionView,
    t: SessionView,
    c: CallView,
    topic: Seq<char>,
)
    requires
        c.params.len() > 0,
        c.params[0] == RpcView::Text(topic),
    ensures
        c.method_name == "get_publishers_info_by_topic"@ && s.publishers == t.publishers ==> answer(
            s,
            c,
        ) == answer(t, c),
        c.method_name == "get_subscriptions_info_by_topic"@ && s.subscriptions == t.subscriptions
            ==> answer(s, c) == answer(t, c),
        c.method_name == "get_publishers_info_by_topic"@ ==> (answer(s, c) matches Ok(
            RpcView::Array(v),
        ) && v.len() == session::endpoints_of(s.publishers, topic).len()),
        c.method_name == "get_subscriptions_info_by_topic"@ ==> (answer(s, c) matches Ok(
            RpcView::Array(v),
        ) && v.len() == session::endpoints_of(s.subscriptions, topic).len()),
{
    reveal_strlit("get_topic_names_and_types");
    reveal_strlit("get_node_names");
    reveal_strlit("get_service_names_and_types");
    reveal_strlit("get_publishers_info_by_topic");
    reveal_strlit("get_subscriptions_info_by_topic");
    assert("get_topic_names_and_types"@.len() == 25);
    assert("get_node_names"@.len() == 14);
    assert("get_service_names_and_types"@.len() == 27);
    assert("get_publishers_info_by_topic"@.len() == 28);
    assert("get_subscriptions_info_by_topic"@.len() == 31);
}

/// A call about a topic that names none is refused, whatever the session knows; a call
/// for the names needs no parameter and is never refused.
pub proof fn law_calls_are_refused_for_want_of_a_topic(s: SessionView, c: CallView)
    ensures
        (c.method_name == "get_publishers_info_by_topic"@ || c.method_name
            == "get_subscriptions_info_by_topic"@) && (c.params.len() == 0 || c.params[0] !is Text)
            ==> answer(s, c) is Err,
        c.method_name == "get_topic_names_and_types"@ || c.method_name == "get_node_names"@
            || c.method_name == "get_service_names_and_types"@ ==> answer(s, c) is Ok,
        c.method_name == "get_node_names"@ ==> (answer(s, c) matches Ok(RpcView::Array(v))
            && v.len() == s.nodes.len()),
        c.method_name == "get_service_names_and_types"@ ==> (answer(s, c) matches Ok(
            RpcView::Array(v),
        ) && v.len() == s.services.len()),
{
    reveal_strlit("get_topic_names_and_types");
    reveal_strlit("get_node_names");
    reveal_strlit("get_service_names_and_types");
    reveal_strlit("get_publishers_info_by_topic");
    reveal_strlit("get_subscriptions_info_by_topic");
    assert("get_topic_names_and_types"@.len() == 25);
    assert("get_node_names"@.len() == 14);
    assert("get_service_names_and_types"@.len() == 27);
    assert("get_publishers_info_by_topic"@.len() == 28);
    assert("get_subscriptions_info_by_topic"@.len() == 31);
}

/// What is told of an endpoint's quality of service: its reliability, its durability and
/// its history, each under its own name.
pub proof fn law_qos_entry_members(i: EndpointView)
    ensures
        qos_entry(i) matches RpcView::Struct(m) && rpc::member_value(m, "reliability"@) == Some(
            RpcView::Text(reliability_text(i.qos.reliability)),
        ) && rpc::member_value(m, "durability"@) == Some(
            RpcView::Text(durability_text(i.qos.durability)),
        ) && rpc::member_value(m, "history"@) == Some(RpcView::Text(history_text(i.qos.history))),
{
    reveal_strlit("reliability");
    reveal_strlit("durability");
    reveal_strlit("history");
    assert("reliability"@[0] != "durability"@[0] && "reliability"@[0] != "history"@[0]
        && "durability"@[0] != "history"@[0]);
    let none: Seq<rpc::MemberView> = Seq::empty();
    let v0 = RpcView::Text(reliability_text(i.qos.reliability));
    let v1 = RpcView::Text(durability_text(i.qos.durability));
    let v2 = RpcView::Text(history_text(i.qos.history));
    let e0 = rpc::with_member(none, "reliability"@, v0);
    let e1 = rpc::with_member(e0, "durability"@, v1);
    rpc::law_set_member_is_found(none, "reliability"@, v0);
    rpc::law_set_member_is_found(e0, "durability"@, v1);
    rpc::law_set_member_is_found(e1, "history"@, v2);
    rpc::law_other_members_stay(e0, "durability"@, v1, "reliability"@);
    rpc::law_other_members_stay(e1, "history"@, v2, "reliability"@);
    rpc::law_other_members_stay(e1, "history"@, v2, "durability"@);
}

/// What is told of an endpoint: the name and the namespace of its node, the type and the
/// name of its topic, its transport, its identifier in hexadecimal, and its quality of
/// service, each under its own name. Endpoints are told in their order.
#[verifier::rlimit(40)]
pub proof fn law_endpoint_entry_members(i: EndpointView, s: Seq<EndpointView>, k: int)
    requires
        0 <= k < s.len(),
    ensures
        endpoint_entry(i) matches RpcView::Struct(m) && rpc::member_value(m, "node_name"@) == Some(
            RpcView::Text(i.node_name),
        ) && rpc::member_value(m, "node_namespace"@) == Some(RpcView::Text(i.node_namespace))
            && rpc::member_value(m, "topic_type"@) == Some(RpcView::Text(i.topic_type))
            && rpc::member_value(m, "topic_name"@) == Some(RpcView::Text(i.topic_name))
            && rpc::member_value(m, "transport_kind"@) == Some(RpcView::Text(i.transport_kind))
            && rpc::member_value(m, "gid"@) == Some(RpcView::Text(hex_text(i.gid)))
            && rpc::member_value(m, "qos"@) == Some(qos_entry(i)),
        endpoint_entries(s) matches RpcView::Array(a) && a.len() == s.len() && a[k]
            == endpoint_entry(s[k]),
{
    reveal_strlit("node_name");
    reveal_strlit("node_namespace");
    reveal_strlit("topic_type");
    reveal_strlit("topic_name");
    reveal_strlit("transport_kind");
    reveal_strlit("gid");
    reveal_strlit("qos");
    let (n0, n1, n2, n3, n4, n5, n6) = (
        "node_name"@,
        "node_namespace"@,
        "topic_type"@,
        "topic_name"@,
        "transport_kind"@,
        "gid"@,
        "qos"@,
    );
    assert(n0.len() == 9 && n1.len() == 14 && n2.len() == 10 && n3.len() == 10 && n4.len() == 14
        && n5.len() == 3 && n6.len() == 3);
    assert(n1[0] != n4[0]);
    assert(n2[6] != n3[6]);
    assert(n5[0] != n6[0]);
    let none: Seq<rpc::MemberView> = Seq::empty();
    let v0 = RpcView::Text(i.node_name);
    let v1 = RpcView::Text(i.node_namespace);
    let v2 = RpcView::Text(i.topic_type);
    let v3 = RpcView::Text(i.topic_name);
    let v4 = RpcView::Text(i.transport_kind);
    let v5 = RpcView::Text(hex_text(i.gid));
    let v6 = qos_entry(i);
    let e0 = rpc::with_member(none, n0, v0);
    let e1 = rpc::with_member(e0, n1, v1);
    let e2 = rpc::with_member(e1, n2, v2);
    let e3 = rpc::with_member(e2, n3, v3);
    let e4 = rpc::with_member(e3, n4, v4);
    let e5 = rpc::with_member(e4, n5, v5);
    let e6 = rpc::with_member(e5, n6, v6);
    rpc::law_set_member_is_found(none, n0, v0);
    rpc::law_set_member_is_found(e0, n1, v1);
    rpc::law_set_member_is_found(e1, n2, v2);
    rpc::law_set_member_is_found(e2, n3, v3);
    rpc::law_set_member_is_found(e3, n4, v4);
    rpc::law_set_member_is_found(e4, n5, v5);
    rpc::law_set_member_is_found(e5, n6, v6);
    rpc::law_other_members_stay(e0, n1, v1, n0);
    rpc::law_other_members_stay(e1, n2, v2, n0);
    rpc::law_other_members_stay(e1, n2, v2, n1);
    rpc::law_other_members_stay(e2, n3, v3, n0);
    rpc::law_other_members_stay(e2, n3, v3, n1);
    rpc::law_other_members_stay(e2, n3, v3, n2);
    rpc::law_other_members_stay(e3, n4, v4, n0);
    rpc::law_other_members_stay(e3, n4, v4, n1);
    rpc::law_other_members_stay(e3, n4, v4, n2);
    rpc::law_other_members_stay(e3, n4, v4, n3);
    rpc::law_other_members_stay(e4, n5, v5, n0);
    rpc::law_other_members_stay(e4, n5, v5, n1);
    rpc::law_other_members_stay(e4, n5, v5, n2);
    rpc::law_other_members_stay(e4, n5, v5, n3);
    rpc::law_other_members_stay(e4, n5, v5, n4);
    rpc::law_other_members_stay(e5, n6, v6, n0);
    rpc::law_other_members_stay(e5, n6, v6, n1);
    rpc::law_other_members_stay(e5, n6, v6, n2);
    rpc::law_other_members_stay(e5, n6, v6, n3);
    rpc::law_other_members_stay(e5, n6, v6, n4);
    rpc::law_other_members_stay(e5, n6, v6, n5);
    assert(endpoint_entry(i) == RpcView::Struct(e6));
}

/// The topic that a call asks about is the text of its first parameter, whatever follows.
pub proof fn law_asked_topic_is_the_first_parameter(c: CallView, t: Seq<char>, more: Seq<RpcView>)
    ensures
        asked_topic(CallView { params: seq![RpcView::Text(t)] + more, ..c }) == Some(t),
        asked_topic(CallView { params: Seq::empty(), ..c }) is None,
        c.params.len() > 0 && !(c.params[0] is Text) ==> asked_topic(c) is None,
{
}

/// Nodes and services are told one by one in their order, whatever the parameters, and
/// topics as far as they are live. A method that there is not is refused.
pub proof fn law_answers_by_method(s: SessionView, c: CallView, k: int)
    ensures
        c.method_name == "get_node_names"@ ==> (answer(s, c) matches Ok(RpcView::Array(a)) && a.len()
            == s.nodes.len() && (0 <= k < s.nodes.len() ==> a[k] == node_entry(s.nodes[k]))),
        c.method_name == "get_service_names_and_types"@ ==> (answer(s, c) matches Ok(
            RpcView::Array(a),
        ) && a.len() == s.services.len() && (0 <= k < s.services.len() ==> a[k] == service_entry(
            s.services[k],
        ))),
        c.method_name == "get_topic_names_and_types"@ ==> answer(s, c) == Ok::<_, Seq<char>>(
            RpcView::Array(topic_entries(s, s.topics)),
        ),
        c.method_name.len() < 14 ==> answer(s, c) is Err,
{
    reveal_strlit("get_topic_names_and_types");
    reveal_strlit("get_node_names");
    reveal_strlit("get_service_names_and_types");
    reveal_strlit("get_publishers_info_by_topic");
    reveal_strlit("get_subscriptions_info_by_topic");
    assert("get_topic_names_and_types"@.len() == 25);
    assert("get_node_names"@.len() == 14);
    assert("get_service_names_and_types"@.len() == 27);
    assert("get_publishers_info_by_topic"@.len() == 28);
    assert("get_subscriptions_info_by_topic"@.len() == 31);
}

} // verus!
