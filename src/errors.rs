use vstd::prelude::*;
use crate::types::{base58_of, PeerId, TopicHash};

verus! {

/// The failures that the overlay reports to its callers.
#[derive(Debug, Clone, PartialEq, Eq)]
pub enum GError {
    /// A transport or codec failure on the named peer.
    Io { peer_id: String },
    /// The peer has not announced the topic that the operation needs.
    NotSubscribedToTopic { t_hash: String, peer_id: String },
    /// The peer is not in the mesh of the topic.
    NotGraftedToTopic { t_hash: String, peer_id: String },
    /// The topic is not in the mesh.
    TopicNotInMesh { t_hash: String },
    /// The peer is already in the mesh of the topic.
    AlreadyGrafted { t_hash: String, peer_id: String },
    /// The `from` field of a received message is no valid peer id.
    InvalidPeerId { from_data: String },
    /// A published payload is larger than the limit.
    MessageTooLarge { size: usize },
}

/// `r` is a `TopicNotInMesh` error for topic `t`.
pub open spec fn is_topic_not_in_mesh<T>(r: Result<T, GError>, t: Seq<char>) -> bool {
    match r {
        Err(GError::TopicNotInMesh { t_hash }) => t_hash@ == t,
        _ => false,
    }
}

/// `r` is a `NotGraftedToTopic` error for topic `t` and peer `p`.
pub open spec fn is_not_grafted<T>(r: Result<T, GError>, t: Seq<char>, p: Seq<u8>) -> bool {
    match r {
        Err(GError::NotGraftedToTopic { t_hash, peer_id }) => t_hash@ == t && peer_id@ == base58_of(p),
        _ => false,
    }
}

/// `r` is a `NotSubscribedToTopic` error for topic `t` and peer `p`.
pub open spec fn is_not_subscribed<T>(r: Result<T, GError>, t: Seq<char>, p: Seq<u8>) -> bool {
    match r {
        Err(GError::NotSubscribedToTopic { t_hash, peer_id }) => t_hash@ == t && peer_id@ == base58_of(p),
        _ => false,
    }
}

/// `r` is an `AlreadyGrafted` error for topic `t` and peer `p`.
pub open spec fn is_already_grafted<T>(r: Result<T, GError>, t: Seq<char>, p: Seq<u8>) -> bool {
    match r {
        Err(GError::AlreadyGrafted { t_hash, peer_id }) => t_hash@ == t && peer_id@ == base58_of(p),
        _ => false,
    }
}

/// Problems collected while grafting several peers at once.
pub struct GraftErrors {
    /// Peers paired with a topic that they have not announced.
    pub topics_not_subscribed: Option<Vec<(PeerId, TopicHash)>>,
    /// Topics that are not in the local mesh view.
    pub topics_not_in_mesh: Option<Vec<TopicHash>>,
    /// Remote peers that are not connected.
    pub r_peers_not_connected: Option<Vec<PeerId>>,
    /// Topics that the peer is already grafted to.
    pub topics_already_grafted: Option<Vec<TopicHash>>,
    /// Whether any of the above holds a value.
    pub has_errors: bool,
}

impl GraftErrors {
    /// A record with no problems in it.
    pub fn new() -> (r: GraftErrors)
        ensures
            r.topics_not_subscribed.is_none(),
            r.topics_not_in_mesh.is_none(),
            r.r_peers_not_connected.is_none(),
            r.topics_already_grafted.is_none(),
            !r.has_errors,
    {
        GraftErrors {
            topics_not_subscribed: None,
            topics_not_in_mesh: None,
            r_peers_not_connected: None,
            topics_already_grafted: None,
            has_errors: false,
        }
    }

    /// Whether no problem was recorded.
    pub fn is_empty(&self) -> (r: bool)
        ensures
            r == !self.has_errors,
    {
        !self.has_errors
    }
}

} // verus!
