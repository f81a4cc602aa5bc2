//! What a session knows of the graph: its nodes, topics, services and endpoints.
use crate::qos::QosProfile;
#[allow(unused_imports)]
use crate::text;
use crate::text::{push_decimal, text_equal};
use vstd::prelude::*;

verus! {

/// One endpoint of a topic.
pub struct TopicEndpointInfo {
    pub node_name: String,
    pub node_namespace: String,
    pub topic_type: String,
    pub topic_name: String,
    pub transport_kind: String,
    pub gid: [u8; 16],
    pub qos: QosProfile,
}

/// What an endpoint holds.
#[verifier::ext_equal]
pub struct EndpointView {
    pub node_name: Seq<char>,
    pub node_namespace: Seq<char>,
    pub topic_type: Seq<char>,
    pub topic_name: Seq<char>,
    pub transport_kind: Seq<char>,
    pub gid: Seq<u8>,
    pub qos: QosProfile,
}

impl View for TopicEndpointInfo {
    type V = EndpointView;

    open spec fn view(&self) -> EndpointView {
        EndpointView {
            node_name: self.node_name@,
            node_namespace: self.node_namespace@,
            topic_type: self.topic_type@,
            topic_name: self.topic_name@,
            transport_kind: self.transport_kind@,
            gid: self.gid@,
            qos: self.qos,
        }
    }
}

/// What a session knows of the graph.
pub struct Session {
    pub node_id: u64,
    pub domain_id: u32,
    /// The nodes, each with its name and its namespace.
    pub nodes: Vec<(String, String)>,
    /// The topics that were ever seen, each with its name and its type.
    pub topics: Vec<(String, String)>,
    /// The services, each with its name and its type.
    pub services: Vec<(String, String)>,
    pub publishers: Vec<TopicEndpointInfo>,
    pub subscriptions: Vec<TopicEndpointInfo>,
}

/// A name and what goes with it: a type or a namespace.
#[verifier::ext_equal]
pub struct NameView {
    pub name: Seq<char>,
    pub kind: Seq<char>,
}

/// What a session holds.
#[verifier::ext_equal]
pub struct SessionView {
    pub node_id: u64,
    pub domain_id: u32,
    pub nodes: Seq<NameView>,
    pub topics: Seq<NameView>,
    pub services: Seq<NameView>,
    pub publishers: Seq<EndpointView>,
    pub subscriptions: Seq<EndpointView>,
}

/// What a list of names holds.
pub open spec fn names_view(s: Seq<(String, String)>) -> Seq<NameView> {
    Seq::new(s.len(), |i: int| NameView { name: s[i].0@, kind: s[i].1@ })
}

/// What a list of endpoints holds.
pub open spec fn endpoints_view(s: Seq<TopicEndpointInfo>) -> Seq<EndpointView> {
    Seq::new(s.len(), |i: int| s[i]@)
}

/// What a list of references to endpoints holds.
pub open spec fn refs_view(s: Seq<&TopicEndpointInfo>) -> Seq<EndpointView> {
    Seq::new(s.len(), |i: int| s[i]@)
}

impl View for Session {
    type V = SessionView;

    open spec fn view(&self) -> SessionView {
        SessionView {
            node_id: self.node_id,
            domain_id: self.domain_id,
            nodes: names_view(self.nodes@),
            topics: names_view(self.topics@),
            services: names_view(self.services@),
            publishers: endpoints_view(self.publishers@),
            subscriptions: endpoints_view(self.subscriptions@),
        }
    }
}

/// The endpoints of one topic, in their order.
pub open spec fn endpoints_of(s: Seq<EndpointView>, topic: Seq<char>) -> Seq<EndpointView>
    decreases s.len(),
{
    if s.len() == 0 {
        Seq::empty()
    } else if s.last().topic_name == topic {
        endpoints_of(s.drop_last(), topic).push(s.last())
    } else {
        endpoints_of(s.drop_last(), topic)
    }
}

/// The endpoints in `list` of one topic, in their order.
fn select<'a>(list: &'a Vec<TopicEndpointInfo>, topic: &str) -> (r: Vec<&'a TopicEndpointInfo>)
    ensures
        refs_view(r@) == endpoints_of(endpoints_view(list@), topic@),
{
    let ghost all = endpoints_view(list@);
    let mut r: Vec<&'a TopicEndpointInfo> = Vec::new();
    let mut i: usize = 0;
    proof {
        assert(all.subrange(0, 0) =~= Seq::empty());
        assert(refs_view(r@) =~= Seq::<EndpointView>::empty());
    }
    while i < list.len()
        invariant
            i <= list@.len(),
            all == endpoints_view(list@),
            refs_view(r@) == endpoints_of(all.subrange(0, i as int), topic@),
        decreases list.len() - i,
    {
        let ghost had = refs_view(r@);
        proof {
            assert(all.subrange(0, i + 1).drop_last() =~= all.subrange(0, i as int));
            assert(all.subrange(0, i + 1).last() == list@[i as int]@);
        }
        if text_equal(list[i].topic_name.as_str(), topic) {
            r.push(&list[i]);
            proof {
                assert(refs_view(r@) =~= had.push(list@[i as int]@));
            }
        }
        i += 1;
    }
    proof {
        assert(all.subrange(0, i as int) =~= all);
    }
    r
}

impl Session {
    /// A session that knows only its own node.
    pub fn new(node_id: u64, domain_id: u32) -> (r: Session)
        ensures
            r@ == (SessionView {
                node_id,
                domain_id,
                nodes: seq![
                    NameView { name: "node_"@ + text::decimal(node_id as nat), kind: "/"@ },
                ],
                topics: Seq::empty(),
                services: Seq::empty(),
                publishers: Seq::empty(),
                subscriptions: Seq::empty(),
            }),
    {
        let mut name = "node_".to_owned();
        push_decimal(&mut name, node_id);
        let mut nodes: Vec<(String, String)> = Vec::new();
        nodes.push((name, "/".to_owned()));
        let r = Session {
            node_id,
            domain_id,
            nodes,
            topics: Vec::new(),
            services: Vec::new(),
            publishers: Vec::new(),
            subscriptions: Vec::new(),
        };
        proof {
            assert(r@.nodes =~= seq![
                NameView { name: "node_"@ + text::decimal(node_id as nat), kind: "/"@ },
            ]);
            assert(r@.topics =~= Seq::empty());
            assert(r@.services =~= Seq::empty());
            assert(r@.publishers =~= Seq::empty());
            assert(r@.subscriptions =~= Seq::empty());
        }
        r
    }

    /// The publishers of a topic.
    pub fn get_publishers_info(&self, topic: &str) -> (r: Vec<&TopicEndpointInfo>)
        ensures
            refs_view(r@) == endpoints_of(self@.publishers, topic@),
    {
        select(&self.publishers, topic)
    }

    /// The subscriptions of a topic.
    pub fn get_subscriptions_info(&self, topic: &str) -> (r: Vec<&TopicEndpointInfo>)
        ensures
            refs_view(r@) == endpoints_of(self@.subscriptions, topic@),
    {
        select(&self.subscriptions, topic)
    }

    /// How many publishers a topic has.
    pub fn count_publishers(&self, topic: &str) -> (r: usize)
        ensures
            r == endpoints_of(self@.publishers, topic@).len(),
    {
        self.get_publishers_info(topic).len()
    }

    /// How many subscriptions a topic has.
    pub fn count_subscribers(&self, topic: &str) -> (r: usize)
        ensures
            r == endpoints_of(self@.subscriptions, topic@).len(),
    {
        self.get_subscriptions_info(topic).len()
    }
}

/// The endpoints of a topic are those of the list whose topic it is, and no others.
pub proof fn law_endpoints_of_exactly(s: Seq<EndpointView>, topic: Seq<char>, e: EndpointView)
    ensures
        endpoints_of(s, topic).contains(e) <==> s.contains(e) && e.topic_name == topic,
        endpoints_of(s, topic).len() <= s.len(),
    decreases s.len(),
{
    if s.len() > 0 {
        let init = s.drop_last();
        let rest = endpoints_of(init, topic);
        let all = endpoints_of(s, topic);
        law_endpoints_of_exactly(init, topic, e);
        if rest.contains(e) {
            let k = choose|k: int| 0 <= k < rest.len() && rest[k] == e;
            assert(all[k] == e);
        }
        if init.contains(e) {
            let k = choose|k: int| 0 <= k < init.len() && init[k] == e;
            assert(s[k] == e);
        }
        if e == s.last() {
            assert(s[s.len() - 1] == e);
            if e.topic_name == topic {
                assert(all[rest.len() as int] == e);
            }
        } else if s.contains(e) {
            let k = choose|k: int| 0 <= k < s.len() && s[k] == e;
            assert(init[k] == e);
        }
        if all.contains(e) && !rest.contains(e) {
            let k = choose|k: int| 0 <= k < all.len() && all[k] == e;
            if k < rest.len() {
                assert(rest[k] == e);
            }
        }
    }
}

/// The endpoints of a topic keep their order, and each counts: those of two lists, one
/// after the other, are those of the first and then those of the second.
pub proof fn law_endpoints_keep_their_order(
    a: Seq<EndpointView>,
    b: Seq<EndpointView>,
    topic: Seq<char>,
)
    ensures
        endpoints_of(a + b, topic) == endpoints_of(a, topic) + endpoints_of(b, topic),
        forall|e: EndpointView|
            e.topic_name == topic ==> endpoints_of(#[trigger] seq![e], topic) == seq![e],
    decreases b.len(),
{
    assert forall|e: EndpointView| e.topic_name == topic implies endpoints_of(
        #[trigger] seq![e],
        topic,
    ) == seq![e] by {
        assert(seq![e].drop_last() =~= Seq::empty());
        assert(endpoints_of(Seq::empty(), topic) =~= Seq::empty());
        assert(endpoints_of(seq![e], topic) =~= seq![e]);
    }
    if b.len() == 0 {
        assert(a + b =~= a);
        assert(endpoints_of(a, topic) + endpoints_of(b, topic) =~= endpoints_of(a, topic));
    } else {
        law_endpoints_keep_their_order(a, b.drop_last(), topic);
        assert((a + b).drop_last() =~= a + b.drop_last());
        assert(endpoints_of(a + b, topic) =~= endpoints_of(a, topic) + endpoints_of(b, topic));
    }
}

} // verus!
