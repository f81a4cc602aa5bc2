//! The entities of the graph.
use crate::qos::QosProfile;
use vstd::prelude::*;

verus! {

/// The number of a node.
pub type NodeId = u64;

/// The hash of a topic's name and type.
pub type TopicHash = u64;

/// The number of a service.
pub type ServiceId = u64;

/// A publisher of this node.
pub struct PublisherEntity {
    pub topic_name: String,
    pub topic_type: String,
    pub topic_hash: TopicHash,
    pub node_id: NodeId,
    pub node_name: String,
    pub node_namespace: String,
    pub qos: QosProfile,
    pub gid: [u8; 16],
}

/// A subscription of this node.
pub struct SubscriptionEntity {
    pub topic_name: String,
    pub topic_type: String,
    pub topic_hash: TopicHash,
    pub node_id: NodeId,
    pub node_name: String,
    pub node_namespace: String,
    pub qos: QosProfile,
    pub gid: [u8; 16],
}

/// What an endpoint of a topic holds.
#[verifier::ext_equal]
pub struct EntityView {
    pub topic_name: Seq<char>,
    pub topic_type: Seq<char>,
    pub topic_hash: TopicHash,
    pub node_id: NodeId,
    pub node_name: Seq<char>,
    pub node_namespace: Seq<char>,
    pub qos: QosProfile,
    pub gid: Seq<u8>,
}

impl View for PublisherEntity {
    type V = EntityView;

    open spec fn view(&self) -> EntityView {
        EntityView {
            topic_name: self.topic_name@,
            topic_type: self.topic_type@,
            topic_hash: self.topic_hash,
            node_id: self.node_id,
            node_name: self.node_name@,
            node_namespace: self.node_namespace@,
            qos: self.qos,
            gid: self.gid@,
        }
    }
}

impl View for SubscriptionEntity {
    type V = EntityView;

    open spec fn view(&self) -> EntityView {
        EntityView {
            topic_name: self.topic_name@,
            topic_type: self.topic_type@,
            topic_hash: self.topic_hash,
            node_id: self.node_id,
            node_name: self.node_name@,
            node_namespace: self.node_namespace@,
            qos: self.qos,
            gid: self.gid@,
        }
    }
}

/// A service of this node.
pub struct ServiceEntity {
    pub service_name: String,
    pub service_type: String,
    pub service_id: ServiceId,
    pub node_id: NodeId,
}

/// A client of this node.
pub struct ClientEntity {
    pub service_name: String,
    pub service_type: String,
    pub client_id: u64,
    pub node_id: NodeId,
}

/// What a service or a client holds; `id` is its own number.
#[verifier::ext_equal]
pub struct ServiceView {
    pub service_name: Seq<char>,
    pub service_type: Seq<char>,
    pub id: u64,
    pub node_id: NodeId,
}

impl View for ServiceEntity {
    type V = ServiceView;

    open spec fn view(&self) -> ServiceView {
        ServiceView {
            service_name: self.service_name@,
            service_type: self.service_type@,
            id: self.service_id,
            node_id: self.node_id,
        }
    }
}

impl View for ClientEntity {
    type V = ServiceView;

    open spec fn view(&self) -> ServiceView {
        ServiceView {
            service_name: self.service_name@,
            service_type: self.service_type@,
            id: self.client_id,
            node_id: self.node_id,
        }
    }
}

/// What is seen of an entity are its own fields, each under its name.
pub proof fn law_entities_show_their_fields(
    p: PublisherEntity,
    s: SubscriptionEntity,
    v: ServiceEntity,
    c: ClientEntity,
)
    ensures
        p@.topic_name == p.topic_name@ && p@.topic_type == p.topic_type@,
        p@.topic_hash == p.topic_hash && p@.node_id == p.node_id && p@.qos == p.qos,
        p@.node_name == p.node_name@ && p@.node_namespace == p.node_namespace@,
        p@.gid == p.gid@,
        s@.topic_name == s.topic_name@ && s@.topic_type == s.topic_type@,
        s@.topic_hash == s.topic_hash && s@.node_id == s.node_id && s@.qos == s.qos,
        s@.node_name == s.node_name@ && s@.node_namespace == s.node_namespace@,
        s@.gid == s.gid@,
        v@.service_name == v.service_name@ && v@.service_type == v.service_type@,
        v@.id == v.service_id && v@.node_id == v.node_id,
        c@.service_name == c.service_name@ && c@.service_type == c.service_type@,
        c@.id == c.client_id && c@.node_id == c.node_id,
{
}

} // verus!
