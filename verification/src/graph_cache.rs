//! The endpoints, services and clients of this node, by their numbers.
use crate::qos::QosProfile;
use crate::types::{
    ClientEntity, EntityView, NodeId, PublisherEntity, ServiceEntity, ServiceId, ServiceView,
    SubscriptionEntity, TopicHash,
};
use std::collections::HashMap;
use vstd::prelude::*;

verus! {

/// What this node offers and uses.
pub struct GraphCache {
    pub local_publishers: HashMap<TopicHash, PublisherEntity>,
    pub local_subscriptions: HashMap<TopicHash, SubscriptionEntity>,
    pub local_services: HashMap<ServiceId, ServiceEntity>,
    pub local_clients: HashMap<u64, ClientEntity>,
    pub node_name: String,
    pub node_namespace: String,
}

/// What a graph cache holds.
#[verifier::ext_equal]
pub struct GraphView {
    pub publishers: Map<TopicHash, EntityView>,
    pub subscriptions: Map<TopicHash, EntityView>,
    pub services: Map<ServiceId, ServiceView>,
    pub clients: Map<u64, ServiceView>,
    pub node_name: Seq<char>,
    pub node_namespace: Seq<char>,
}

impl View for GraphCache {
    type V = GraphView;

    open spec fn view(&self) -> GraphView {
        GraphView {
            publishers: self.local_publishers@.map_values(|e: PublisherEntity| e@),
            subscriptions: self.local_subscriptions@.map_values(|e: SubscriptionEntity| e@),
            services: self.local_services@.map_values(|e: ServiceEntity| e@),
            clients: self.local_clients@.map_values(|e: ClientEntity| e@),
            node_name: self.node_name@,
            node_namespace: self.node_namespace@,
        }
    }
}

impl GraphCache {
    /// A node that offers and uses nothing yet, in the root namespace.
    pub fn new(node_name: &str) -> (r: GraphCache)
        ensures
            r@ == (GraphView {
                publishers: Map::empty(),
                subscriptions: Map::empty(),
                services: Map::empty(),
                clients: Map::empty(),
                node_name: node_name@,
                node_namespace: "/"@,
            }),
    {
        broadcast use vstd::std_specs::hash::group_hash_axioms;

        let r = GraphCache {
            local_publishers: HashMap::new(),
            local_subscriptions: HashMap::new(),
            local_services: HashMap::new(),
            local_clients: HashMap::new(),
            node_name: node_name.to_owned(),
            node_namespace: "/".to_owned(),
        };
        proof {
            assert(r@.publishers =~= Map::empty());
            assert(r@.subscriptions =~= Map::empty());
            assert(r@.services =~= Map::empty());
            assert(r@.clients =~= Map::empty());
        }
        r
    }

    /// Notes a publisher, in place of any of the same hash.
    pub fn register_publisher(
        &mut self,
        topic_hash: TopicHash,
        topic_name: &str,
        topic_type: &str,
        node_id: NodeId,
        qos: QosProfile,
        gid: [u8; 16],
    )
        ensures
            final(self)@ == (GraphView {
                publishers: old(self)@.publishers.insert(
                    topic_hash,
                    EntityView {
                        topic_name: topic_name@,
                        topic_type: topic_type@,
                        topic_hash,
                        node_id,
                        node_name: old(self)@.node_name,
                        node_namespace: old(self)@.node_namespace,
                        qos,
                        gid: gid@,
                    },
                ),
                ..old(self)@
            }),
    {
        broadcast use vstd::std_specs::hash::group_hash_axioms;

        let entity = PublisherEntity {
            topic_name: topic_name.to_owned(),
            topic_type: topic_type.to_owned(),
            topic_hash,
            node_id,
            node_name: self.node_name.clone(),
            node_namespace: self.node_namespace.clone(),
            qos,
            gid,
        };
        let ghost added = entity@;
        self.local_publishers.insert(topic_hash, entity);
        proof {
            assert(self@.publishers =~= old(self)@.publishers.insert(topic_hash, added));
        }
    }

    /// Notes a subscription, in place of any of the same hash.
    pub fn register_subscription(
        &mut self,
        topic_hash: TopicHash,
        topic_name: &str,
        topic_type: &str,
        node_id: NodeId,
        qos: QosProfile,
        gid: [u8; 16],
    )
        ensures
            final(self)@ == (GraphView {
                subscriptions: old(self)@.subscriptions.insert(
                    topic_hash,
                    EntityView {
                        topic_name: topic_name@,
                        topic_type: topic_type@,
                        topic_hash,
                        node_id,
                        node_name: old(self)@.node_name,
                        node_namespace: old(self)@.node_namespace,
                        qos,
                        gid: gid@,
                    },
                ),
                ..old(self)@
            }),
    {
        broadcast use vstd::std_specs::hash::group_hash_axioms;

        let entity = SubscriptionEntity {
            topic_name: topic_name.to_owned(),
            topic_type: topic_type.to_owned(),
            topic_hash,
            node_id,
            node_name: self.node_name.clone(),
            node_namespace: self.node_namespace.clone(),
            qos,
            gid,
        };
        let ghost added = entity@;
        self.local_subscriptions.insert(topic_hash, entity);
        proof {
            assert(self@.subscriptions =~= old(self)@.subscriptions.insert(topic_hash, added));
        }
    }

    /// Notes a service, in place of any of the same number.
    pub fn register_service(
        &mut self,
        service_id: ServiceId,
        service_name: &str,
        service_type: &str,
        node_id: NodeId,
    )
        ensures
            final(self)@ == (GraphView {
                services: old(self)@.services.insert(
                    service_id,
                    ServiceView {
                        service_name: service_name@,
                        service_type: service_type@,
                        id: service_id,
                        node_id,
                    },
                ),
                ..old(self)@
            }),
    {
        broadcast use vstd::std_specs::hash::group_hash_axioms;

        let entity = ServiceEntity {
            service_name: service_name.to_owned(),
            service_type: service_type.to_owned(),
            service_id,
            node_id,
        };
        let ghost added = entity@;
        self.local_services.insert(service_id, entity);
        proof {
            assert(self@.services =~= old(self)@.services.insert(service_id, added));
        }
    }

    /// Notes a client, in place of any of the same number.
    pub fn register_client(
        &mut self,
        client_id: u64,
        service_name: &str,
        service_type: &str,
        node_id: NodeId,
    )
        ensures
            final(self)@ == (GraphView {
                clients: old(self)@.clients.insert(
                    client_id,
                    ServiceView {
                        service_name: service_name@,
                        service_type: service_type@,
                        id: client_id,
                        node_id,
                    },
                ),
                ..old(self)@
            }),
    {
        broadcast use vstd::std_specs::hash::group_hash_axioms;

        let entity = ClientEntity {
            service_name: service_name.to_owned(),
            service_type: service_type.to_owned(),
            client_id,
            node_id,
        };
        let ghost added = entity@;
        self.local_clients.insert(client_id, entity);
        proof {
            assert(self@.clients =~= old(self)@.clients.insert(client_id, added));
        }
    }
}

} // verus!
