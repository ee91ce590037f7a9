use vstd::prelude::*;
use crate::control::{ControlIHave, ControlIWant, GossipsubSubscription, GossipsubSubscriptionAction};
use crate::errors::{is_already_grafted, is_not_subscribed, GError};
use crate::fanout::{expired, fresh_entries, has_topic, Fanout, FanoutView};
use crate::mcache::{refers_to, shifted, window_ids, MCache};
use crate::message::{topic_views, GMessage, MsgHash, MsgRep};
use crate::seen::seen_after;
use crate::constants::MAX_MESSAGE_SIZE;
use crate::heartbeat::{repair_mesh, within};
use crate::constants::{HIGH_WM_MESH_DEGREE, HISTORY_GOSSIP, LOW_WM_MESH_DEGREE, TARGET_MESH_DEGREE};
use crate::peer_view::{lemma_subscribers_of, subscribers_of};
use crate::mesh::Mesh;
use crate::peer_view::PeerView;
use crate::peers::{contains_peer, dedup, lemma_dedup_unique, lemma_remove_value, peer_views};
use crate::seen::SeenSet;
use crate::types::{base58_of, PeerId, TopicHash};

verus! {

/// One step of the xorshift generator that drives peer sampling.
pub open spec fn xorshift(x: u64) -> u64 {
    let a = x ^ (x << 13u64);
    let b = a ^ (a >> 7u64);
    b ^ (b << 17u64)
}

/// The reply to a GRAFT: what is reported, and whether a PRUNE goes back.
pub struct GraftReply {
    pub result: Result<(), GError>,
    pub prune: bool,
}

/// The state of the local node: its mesh (whose topics are exactly those
/// it subscribes to), fanout, view of remote subscriptions, message cache,
/// seen set and sampling state.
pub struct Gossipsub {
    pub mesh: Mesh,
    pub fanout: Fanout,
    pub peer_view: PeerView,
    pub mcache: MCache,
    pub seen: SeenSet,
    pub rng: u64,
}

impl Gossipsub {
    /// Every part is well formed, and every mesh peer of a topic has
    /// announced that topic.
    pub open spec fn wf(&self) -> bool {
        &&& self.mesh.wf()
        &&& self.fanout.wf()
        &&& self.peer_view.wf()
        &&& self.mcache.wf()
        &&& self.seen.wf()
        &&& forall|t: Seq<char>, p: Seq<u8>|
            self.mesh@.contains_key(t) && #[trigger] self.mesh@[t].contains(p) ==> self.peer_view@.contains((p, t))
    }

    /// A node that subscribes to nothing and knows no peer; `seed` starts the
    /// sampling generator.
    pub fn new(seed: u64) -> (r: Gossipsub)
        ensures
            r.wf(),
            r.mesh@ == Map::<Seq<char>, Seq<Seq<u8>>>::empty(),
            r.fanout@.len() == 0,
            r.peer_view@.len() == 0,
            r.seen@.len() == 0,
            r.rng == seed,
    {
        Gossipsub {
            mesh: Mesh::new(),
            fanout: Fanout::new(),
            peer_view: PeerView::new(),
            mcache: MCache::new(),
            seen: SeenSet::new(),
            rng: seed,
        }
    }

    /// Advances the sampling generator and returns its new state.
    pub fn next_random(&mut self) -> (r: u64)
        ensures
            r == xorshift(old(self).rng),
            *final(self) == (Gossipsub { rng: r, ..*old(self) }),
    {
        let x = self.rng;
        let a = x ^ (x << 13u64);
        let b = a ^ (a >> 7u64);
        let c = b ^ (b << 17u64);
        self.rng = c;
        c
    }

    /// Whether the local node subscribes to `topic`.
    pub fn is_subscribed(&self, topic: &TopicHash) -> (r: bool)
        requires
            self.wf(),
        ensures
            r == self.mesh@.contains_key(topic@),
    {
        self.mesh.get_peers_from_topic(topic).is_ok()
    }

    /// Subscribes the local node to `topic`, with an empty mesh that the next
    /// heartbeat fills; false when it already subscribes.
    pub fn subscribe(&mut self, topic: &TopicHash) -> (r: bool)
        requires
            old(self).wf(),
        ensures
            final(self).wf(),
            r == !old(self).mesh@.contains_key(topic@),
            r ==> final(self).mesh@ == old(self).mesh@.insert(topic@, Seq::empty()),
            !r ==> final(self).mesh@ == old(self).mesh@,
            final(self).peer_view@ == old(self).peer_view@,
            final(self).fanout@ == old(self).fanout@,
    {
        if self.is_subscribed(topic) {
            return false;
        }
        let empty: Vec<PeerId> = Vec::new();
        self.mesh.insert(topic.duplicate(), empty);
        assert(dedup(peer_views(empty@)) =~= Seq::<Seq<u8>>::empty()) by {
            assert(peer_views(empty@) =~= Seq::<Seq<u8>>::empty());
        }
        true
    }

    /// Unsubscribes the local node from `topic` and returns the peers of its
    /// mesh, which are to be sent PRUNE.
    pub fn unsubscribe(&mut self, topic: &TopicHash) -> (r: Vec<PeerId>)
        requires
            old(self).wf(),
        ensures
            final(self).wf(),
            final(self).mesh@ == old(self).mesh@.remove(topic@),
            old(self).mesh@.contains_key(topic@) ==> peer_views(r@) == old(self).mesh@[topic@],
            !old(self).mesh@.contains_key(topic@) ==> r@.len() == 0,
            final(self).peer_view@ == old(self).peer_view@,
    {
        match self.mesh.remove(topic) {
            Ok(peers) => peers,
            Err(_) => Vec::new(),
        }
    }

    /// Applies a subscription change announced by peer `from`. A peer that
    /// unsubscribes also leaves the local mesh of the topic, without a PRUNE.
    pub fn handle_subscription(&mut self, from: &PeerId, sub: &GossipsubSubscription)
        requires
            old(self).wf(),
        ensures
            final(self).wf(),
            sub.action == GossipsubSubscriptionAction::Subscribe ==> final(self).mesh@ == old(self).mesh@
                && forall|x: (Seq<u8>, Seq<char>)| #[trigger] final(self).peer_view@.contains(x) <==> (old(self).peer_view@.contains(x)
                    || x == (from@, sub.topic@)),
            sub.action == GossipsubSubscriptionAction::Unsubscribe ==> {
                &&& forall|x: (Seq<u8>, Seq<char>)| #[trigger] final(self).peer_view@.contains(x) <==> (old(self).peer_view@.contains(x)
                    && x != (from@, sub.topic@))
                &&& old(self).mesh@.contains_key(sub.topic@) && old(self).mesh@[sub.topic@].contains(from@)
                    ==> final(self).mesh@ == old(self).mesh@.insert(sub.topic@, old(self).mesh@[sub.topic@].remove_value(from@))
                &&& !(old(self).mesh@.contains_key(sub.topic@) && old(self).mesh@[sub.topic@].contains(from@))
                    ==> final(self).mesh@ == old(self).mesh@
            },
            final(self).mesh@.dom() == old(self).mesh@.dom(),
            final(self).fanout == old(self).fanout,
            final(self).mcache == old(self).mcache,
            final(self).seen == old(self).seen,
            final(self).rng == old(self).rng,
    {
        let ghost pre = *self;
        match sub.action {
            GossipsubSubscriptionAction::Subscribe => {
                self.peer_view.subscribe(from, &sub.topic);
                assert forall|t: Seq<char>, p: Seq<u8>|
                    self.mesh@.contains_key(t) && #[trigger] self.mesh@[t].contains(p) implies self.peer_view@.contains((p, t)) by {
                    assert(pre.peer_view@.contains((p, t)));
                    let k = choose|k: int| 0 <= k < pre.peer_view@.len() && pre.peer_view@[k] == (p, t);
                    if self.peer_view@ != pre.peer_view@ {
                        assert(self.peer_view@[k] == (p, t));
                    }
                }
            },
            GossipsubSubscriptionAction::Unsubscribe => {
                self.peer_view.unsubscribe(from, &sub.topic);
                let _ = self.mesh.remove_peer_from_topic(&sub.topic, from.duplicate());
                proof {
                    let t0 = sub.topic@;
                    if pre.mesh@.contains_key(t0) {
                        lemma_remove_value(pre.mesh@[t0], from@);
                    }
                    assert forall|t: Seq<char>, p: Seq<u8>|
                        self.mesh@.contains_key(t) && #[trigger] self.mesh@[t].contains(p) implies self.peer_view@.contains((p, t)) by {
                        if t == t0 && self.mesh@ != pre.mesh@ {
                            assert(pre.mesh@[t].contains(p) && p != from@);
                        } else {
                            assert(pre.mesh@[t].contains(p));
                        }
                        assert(pre.peer_view@.contains((p, t)));
                    }
                    if self.mesh@ == pre.mesh@ && pre.mesh@.contains_key(t0) {
                        assert(!pre.mesh@[t0].contains(from@));
                    }
                    assert(self.mesh@.dom() =~= pre.mesh@.dom());
                }
            },
        }
    }

    /// Answers a GRAFT of `topic` from peer `from`. A topic the local node
    /// does not subscribe to gets a PRUNE back; so does a peer that has not
    /// announced the topic, reported as `NotSubscribedToTopic`. A peer
    /// already in the mesh is reported as `AlreadyGrafted` and nothing
    /// changes; any other peer joins the mesh.
    pub fn handle_graft(&mut self, from: &PeerId, topic: &TopicHash) -> (r: GraftReply)
        requires
            old(self).wf(),
        ensures
            final(self).wf(),
            final(self).peer_view == old(self).peer_view,
            final(self).fanout == old(self).fanout,
            final(self).mcache == old(self).mcache,
            final(self).seen == old(self).seen,
            final(self).rng == old(self).rng,
            !old(self).mesh@.contains_key(topic@) ==> r.prune && r.result is Ok
                && final(self).mesh@ == old(self).mesh@,
            old(self).mesh@.contains_key(topic@) && !old(self).peer_view@.contains((from@, topic@)) ==> r.prune
                && is_not_subscribed(r.result, topic@, from@) && final(self).mesh@ == old(self).mesh@,
            old(self).mesh@.contains_key(topic@) && old(self).peer_view@.contains((from@, topic@))
                && old(self).mesh@[topic@].contains(from@) ==> !r.prune
                && is_already_grafted(r.result, topic@, from@) && final(self).mesh@ == old(self).mesh@,
            old(self).mesh@.contains_key(topic@) && old(self).peer_view@.contains((from@, topic@))
                && !old(self).mesh@[topic@].contains(from@) ==> !r.prune && r.result is Ok
                && final(self).mesh@ == old(self).mesh@.insert(topic@, old(self).mesh@[topic@].push(from@)),
    {
        let ghost pre = *self;
        if !self.is_subscribed(topic) {
            return GraftReply { result: Ok(()), prune: true };
        }
        if !self.peer_view.is_subscribed(from, topic) {
            let e = GError::NotSubscribedToTopic { t_hash: topic.duplicate().into_string(), peer_id: from.to_base58() };
            return GraftReply { result: Err(e), prune: true };
        }
        let ghost known = self.peer_view@.contains((from@, topic@));
        assert(known);
        let result = self.mesh.add_peer(topic.duplicate(), from.duplicate());
        assert(self.peer_view == pre.peer_view);
        proof {
            assert forall|t: Seq<char>, p: Seq<u8>|
                self.mesh@.contains_key(t) && #[trigger] self.mesh@[t].contains(p) implies self.peer_view@.contains((p, t)) by {
                if self.mesh@ != pre.mesh@ && t == topic@ {
                    let s = pre.mesh@[t];
                    let k = choose|k: int| 0 <= k < s.push(from@).len() && s.push(from@)[k] == p;
                    if k < s.len() {
                        assert(s[k] == p);
                    } else {
                        assert(p == from@);
                        assert(pre.peer_view@.contains((from@, topic@)));
                    }
                    assert(pre.mesh@[t].contains(p) || p == from@);
                } else {
                    assert(self.mesh@[t] == pre.mesh@[t]);
                    assert(pre.mesh@[t].contains(p));
                }
            }
        }
        GraftReply { result, prune: false }
    }

    /// Answers a PRUNE of `topic` from peer `from`: the peer leaves the mesh
    /// of the topic if it was in it; true when it was.
    pub fn handle_prune(&mut self, from: &PeerId, topic: &TopicHash) -> (r: bool)
        requires
            old(self).wf(),
        ensures
            final(self).wf(),
            final(self).peer_view == old(self).peer_view,
            final(self).fanout == old(self).fanout,
            r == (old(self).mesh@.contains_key(topic@) && old(self).mesh@[topic@].contains(from@)),
            r ==> final(self).mesh@ == old(self).mesh@.insert(topic@, old(self).mesh@[topic@].remove_value(from@)),
            !r ==> final(self).mesh@ == old(self).mesh@,
    {
        let ghost pre = *self;
        let r = self.mesh.remove_peer_from_topic(topic, from.duplicate()).is_ok();
        proof {
            if r {
                lemma_remove_value(pre.mesh@[topic@], from@);
            }
            assert forall|t: Seq<char>, p: Seq<u8>|
                self.mesh@.contains_key(t) && #[trigger] self.mesh@[t].contains(p) implies self.peer_view@.contains((p, t)) by {
                assert(pre.mesh@[t].contains(p));
            }
        }
        r
    }

    /// Forgets peer `p`: it leaves every mesh and fanout entry, and its
    /// subscriptions are dropped.
    pub fn disconnect(&mut self, p: &PeerId)
        requires
            old(self).wf(),
        ensures
            final(self).wf(),
            final(self).mesh@.dom() == old(self).mesh@.dom(),
            forall|t: Seq<char>| #[trigger] final(self).mesh@.contains_key(t) ==> !final(self).mesh@[t].contains(p@),
            forall|t: Seq<char>| #[trigger] final(self).mesh@.contains_key(t) ==> final(self).mesh@[t] == old(self).mesh@[t].remove_value(p@),
            final(self).fanout@.len() == old(self).fanout@.len(),
            forall|i: int| 0 <= i < final(self).fanout@.len() ==> !(#[trigger] final(self).fanout@[i]).1.contains(p@),
            forall|x: (Seq<u8>, Seq<char>)| #[trigger] final(self).peer_view@.contains(x) <==> (old(self).peer_view@.contains(x) && x.0 != p@),
            forall|i: int| 0 <= i < old(self).fanout@.len() ==> #[trigger] final(self).fanout@[i] == (
                old(self).fanout@[i].0,
                old(self).fanout@[i].1.remove_value(p@),
                old(self).fanout@[i].2,
            ),
            final(self).mcache == old(self).mcache,
            final(self).seen == old(self).seen,
            final(self).rng == old(self).rng,
    {
        let ghost pre = *self;
        self.mesh.remove_peer_everywhere(p);
        self.fanout.remove_peer(p);
        self.peer_view.remove_peer(p);
        proof {
            assert forall|t: Seq<char>| #[trigger] self.mesh@.contains_key(t) implies !self.mesh@[t].contains(p@) by {
                lemma_remove_value(pre.mesh@[t], p@);
            }
            assert forall|i: int| 0 <= i < self.fanout@.len() implies !(#[trigger] self.fanout@[i]).1.contains(p@) by {
                lemma_remove_value(pre.fanout@[i].1, p@);
            }
            assert forall|t: Seq<char>, q: Seq<u8>|
                self.mesh@.contains_key(t) && #[trigger] self.mesh@[t].contains(q) implies self.peer_view@.contains((q, t)) by {
                lemma_remove_value(pre.mesh@[t], p@);
                assert(pre.mesh@[t].contains(q));
            }
        }
    }

    /// Whether `x` is a forwarding peer of topic `t`: in its mesh, or in its
    /// fanout entry.
    pub open spec fn targets(&self, t: Seq<char>, x: Seq<u8>) -> bool {
        ||| (self.mesh@.contains_key(t) && self.mesh@[t].contains(x))
        ||| exists|i: int| 0 <= i < self.fanout@.len() && self.fanout@[i].0 == t && #[trigger] self.fanout@[i].1.contains(x)
    }

    /// Whether `x` is a forwarding peer of one of `topics`, and is neither
    /// `a` nor `b`.
    pub open spec fn forwards_to(&self, topics: Seq<Seq<char>>, a: Seq<u8>, b: Seq<u8>, x: Seq<u8>) -> bool {
        &&& x != a
        &&& x != b
        &&& exists|j: int| 0 <= j < topics.len() && self.targets(#[trigger] topics[j], x)
    }

    /// The forwarding peers of `topics`, each once, leaving out `a` and `b`.
    pub fn forward_targets(&self, topics: &Vec<TopicHash>, a: &PeerId, b: &PeerId) -> (r: Vec<PeerId>)
        requires
            self.wf(),
        ensures
            peer_views(r@).no_duplicates(),
            forall|x: Seq<u8>| #[trigger] peer_views(r@).contains(x) <==> self.forwards_to(topic_views(topics@), a@, b@, x),
    {
        let ghost tv = topic_views(topics@);
        let mut out: Vec<PeerId> = Vec::new();
        let mut i: usize = 0;
        while i < topics.len()
            invariant
                self.wf(),
                tv == topic_views(topics@),
                0 <= i <= topics@.len(),
                peer_views(out@).no_duplicates(),
                forall|x: Seq<u8>| #[trigger] peer_views(out@).contains(x) <==> self.forwards_to(tv.subrange(0, i as int), a@, b@, x),
            decreases topics@.len() - i,
        {
            let t = &topics[i];
            assert(tv[i as int] == t@);
            let ghost before = peer_views(out@);
            let mesh_peers = match self.mesh.get_peers_from_topic(t) {
                Ok(ps) => ps,
                Err(_) => Vec::new(),
            };
            add_targets(&mut out, &mesh_peers, a, b);
            let ghost mid = peer_views(out@);
            let fan_peers = match self.fanout.peers_of(t) {
                Some(ps) => ps,
                None => Vec::new(),
            };
            add_targets(&mut out, &fan_peers, a, b);
            proof {
                let sub = tv.subrange(0, i as int + 1);
                assert forall|x: Seq<u8>| #[trigger] peer_views(out@).contains(x) <==> self.forwards_to(sub, a@, b@, x) by {
                    let in_mesh = self.mesh@.contains_key(t@) && self.mesh@[t@].contains(x);
                    let in_fan = exists|k: int| 0 <= k < self.fanout@.len() && self.fanout@[k].0 == t@ && #[trigger] self.fanout@[k].1.contains(x);
                    assert(peer_views(mesh_peers@).contains(x) == in_mesh) by {
                        if !self.mesh@.contains_key(t@) {
                            assert(peer_views(mesh_peers@) =~= Seq::<Seq<u8>>::empty());
                        }
                    }
                    assert(peer_views(fan_peers@).contains(x) == in_fan) by {
                        if has_topic(self.fanout@, t@) {
                            let k0 = choose|k: int| 0 <= k < self.fanout@.len() && self.fanout@[k].0 == t@ && self.fanout@[k].1 == peer_views(fan_peers@);
                            if in_fan {
                                let k = choose|k: int| 0 <= k < self.fanout@.len() && self.fanout@[k].0 == t@ && #[trigger] self.fanout@[k].1.contains(x);
                                if k != k0 {
                                    if k < k0 {
                                        assert(self.fanout@[k].0 != self.fanout@[k0].0);
                                    } else {
                                        assert(self.fanout@[k0].0 != self.fanout@[k].0);
                                    }
                                }
                            }
                        } else {
                            assert(peer_views(fan_peers@) =~= Seq::<Seq<u8>>::empty());
                        }
                    }
                    assert(self.targets(t@, x) == (in_mesh || in_fan));
                    if self.forwards_to(sub, a@, b@, x) {
                        let j = choose|j: int| 0 <= j < sub.len() && self.targets(#[trigger] sub[j], x);
                        if j < i {
                            assert(tv.subrange(0, i as int)[j] == sub[j]);
                            assert(self.forwards_to(tv.subrange(0, i as int), a@, b@, x));
                        } else {
                            assert(sub[j] == t@);
                        }
                    }
                    if self.forwards_to(tv.subrange(0, i as int), a@, b@, x) {
                        let j = choose|j: int| 0 <= j < i && self.targets(#[trigger] tv.subrange(0, i as int)[j], x);
                        assert(sub[j] == tv.subrange(0, i as int)[j]);
                    }
                    if x != a@ && x != b@ && (in_mesh || in_fan) {
                        assert(sub[i as int] == t@);
                    }
                }
            }
            i = i + 1;
        }
        assert(tv.subrange(0, i as int) =~= tv);
        out
    }

    /// Whether the local node already has the message that `rep` names: in
    /// its cache, or, for a hash, in its seen set.
    pub open spec fn knows(&self, rep: (bool, Seq<char>)) -> bool {
        self.mcache.holds(rep) || (rep.0 && self.seen@.contains(rep.1))
    }

    /// The references of `ids` that the local node does not have, in order.
    pub open spec fn unknown_ids(&self, ids: Seq<(bool, Seq<char>)>) -> Seq<(bool, Seq<char>)>
        decreases ids.len(),
    {
        if ids.len() == 0 {
            ids
        } else if self.knows(ids.last()) {
            self.unknown_ids(ids.drop_last())
        } else {
            self.unknown_ids(ids.drop_last()).push(ids.last())
        }
    }

    /// Answers an IHAVE: an IWANT listing, in order, the offered messages
    /// that the local node does not have, or nothing when it has them all.
    pub fn handle_ihave(&self, ids: &Vec<MsgRep>) -> (r: Option<ControlIWant>)
        ensures
            r is None == (self.unknown_ids(rep_views(ids@)).len() == 0),
            r matches Some(w) ==> rep_views(w.messages@) == self.unknown_ids(rep_views(ids@)),
    {
        let ghost rv = rep_views(ids@);
        let mut wanted: Vec<MsgRep> = Vec::new();
        let mut i: usize = 0;
        while i < ids.len()
            invariant
                0 <= i <= ids@.len(),
                rv == rep_views(ids@),
                rep_views(wanted@) == self.unknown_ids(rv.subrange(0, i as int)),
            decreases ids@.len() - i,
        {
            let rep = &ids[i];
            let ghost sub = rv.subrange(0, i as int + 1);
            assert(sub.drop_last() =~= rv.subrange(0, i as int));
            assert(sub.last() == rep@);
            let known = self.mcache.contains(rep) || match rep {
                MsgRep::Hash(h) => self.seen.contains(h),
                MsgRep::Id(_) => false,
            };
            if !known {
                let ghost before = rep_views(wanted@);
                wanted.push(rep.duplicate());
                assert(rep_views(wanted@) =~= before.push(rep@));
            }
            i = i + 1;
        }
        assert(rv.subrange(0, i as int) =~= rv);
        if wanted.len() == 0 {
            None
        } else {
            Some(ControlIWant { messages: wanted })
        }
    }

    /// `m` is a copy of a message that the cache holds.
    pub open spec fn cached_copy(&self, m: GMessage) -> bool {
        exists|a: int, b: int| 0 <= a < self.mcache@.len() && 0 <= b < self.mcache@[a].len()
            && m.same_content(#[trigger] self.mcache@[a][b])
    }

    /// The references of `ids` that name a cached message, in order.
    pub open spec fn held_ids(&self, ids: Seq<(bool, Seq<char>)>) -> Seq<(bool, Seq<char>)>
        decreases ids.len(),
    {
        if ids.len() == 0 {
            ids
        } else if self.mcache.holds(ids.last()) {
            self.held_ids(ids.drop_last()).push(ids.last())
        } else {
            self.held_ids(ids.drop_last())
        }
    }

    /// Answers an IWANT: for each requested message that the cache holds, in
    /// the order requested, a copy of it.
    pub fn handle_iwant(&self, ids: &Vec<MsgRep>) -> (r: Vec<GMessage>)
        ensures
            r@.len() == self.held_ids(rep_views(ids@)).len(),
            forall|k: int| 0 <= k < r@.len() ==> refers_to(self.held_ids(rep_views(ids@))[k], #[trigger] r@[k])
                && self.cached_copy(r@[k]),
    {
        let ghost rv = rep_views(ids@);
        let mut out: Vec<GMessage> = Vec::new();
        let mut i: usize = 0;
        while i < ids.len()
            invariant
                0 <= i <= ids@.len(),
                rv == rep_views(ids@),
                out@.len() == self.held_ids(rv.subrange(0, i as int)).len(),
                forall|k: int| 0 <= k < out@.len() ==> refers_to(self.held_ids(rv.subrange(0, i as int))[k], #[trigger] out@[k])
                    && self.cached_copy(out@[k]),
            decreases ids@.len() - i,
        {
            let ghost sub = rv.subrange(0, i as int + 1);
            let ghost hp = self.held_ids(rv.subrange(0, i as int));
            assert(sub.drop_last() =~= rv.subrange(0, i as int));
            assert(sub.last() == ids@[i as int]@);
            match self.mcache.get(&ids[i]) {
                Some(m) => {
                    let c = m.duplicate();
                    let ghost before = out@;
                    out.push(c);
                    proof {
                        let (a, b) = choose|a: int, b: int| 0 <= a < self.mcache@.len() && 0 <= b < self.mcache@[a].len() && self.mcache@[a][b] == *m;
                        assert(c.same_content(self.mcache@[a][b]));
                        assert(self.held_ids(sub) == hp.push(sub.last()));
                        assert forall|k: int| 0 <= k < out@.len() implies refers_to(self.held_ids(sub)[k], #[trigger] out@[k])
                            && self.cached_copy(out@[k]) by {
                            if k < before.len() {
                                assert(out@[k] == before[k]);
                            } else {
                                assert(out@[k] == c);
                            }
                        }
                    }
                },
                None => {},
            }
            i = i + 1;
        }
        assert(rv.subrange(0, i as int) =~= rv);
        out
    }

    /// Whether the local node subscribes to one of `topics`.
    pub fn subscribes_any(&self, topics: &Vec<TopicHash>) -> (r: bool)
        requires
            self.wf(),
        ensures
            r == exists|j: int| 0 <= j < topics@.len() && self.mesh@.contains_key(#[trigger] topics@[j]@),
    {
        let mut i: usize = 0;
        while i < topics.len()
            invariant
                self.wf(),
                0 <= i <= topics@.len(),
                forall|j: int| 0 <= j < i ==> !self.mesh@.contains_key(#[trigger] topics@[j]@),
            decreases topics@.len() - i,
        {
            if self.is_subscribed(&topics[i]) {
                return true;
            }
            i = i + 1;
        }
        false
    }

    /// Takes in a message received from peer `from`. A message already seen
    /// is dropped; one whose stored hash is not that of its contents is
    /// rejected. Otherwise it is cached, delivered when the local node
    /// subscribes to one of its topics, and forwarded to the mesh and fanout
    /// peers of its topics, leaving out `from` and its source.
    pub fn handle_message(&mut self, from: &PeerId, msg: GMessage) -> (r: MessageOutcome)
        requires
            old(self).wf(),
        ensures
            final(self).wf(),
            final(self).mesh == old(self).mesh,
            final(self).fanout == old(self).fanout,
            final(self).peer_view == old(self).peer_view,
            final(self).seen@ == seen_after(old(self).seen@, msg.hash@),
            old(self).seen@.contains(msg.hash@) ==> !r.deliver && r.forward@.len() == 0
                && final(self).mcache == old(self).mcache,
            !old(self).seen@.contains(msg.hash@) && !msg.hash_ok() ==> !r.deliver && r.forward@.len() == 0
                && final(self).mcache == old(self).mcache,
            !old(self).seen@.contains(msg.hash@) && msg.hash_ok() ==> {
                &&& r.deliver == exists|j: int| 0 <= j < msg.topics@.len() && old(self).mesh@.contains_key(#[trigger] msg.topics@[j]@)
                &&& peer_views(r.forward@).no_duplicates()
                &&& forall|x: Seq<u8>| #[trigger] peer_views(r.forward@).contains(x) <==> old(self).forwards_to(
                    topic_views(msg.topics@),
                    from@,
                    msg.source@,
                    x,
                )
                &&& old(self).mcache.holds_hash(msg.hash@) ==> final(self).mcache@ == old(self).mcache@
                &&& !old(self).mcache.holds_hash(msg.hash@) ==> final(self).mcache@ == old(self).mcache@.update(
                    0,
                    old(self).mcache@[0].push(msg),
                )
            },
    {
        let ghost pre = *self;
        if !self.seen.observe(&msg.hash) {
            return MessageOutcome { deliver: false, forward: Vec::new() };
        }
        let expected = MsgHash::new(msg.duplicate());
        if !expected.same(&msg.hash) {
            return MessageOutcome { deliver: false, forward: Vec::new() };
        }
        let forward = self.forward_targets(&msg.topics, from, &msg.source);
        let deliver = self.subscribes_any(&msg.topics);
        self.mcache.put(msg);
        MessageOutcome { deliver, forward }
    }

    /// Publishes `data` on `topics` as a message from `source`, stamped with
    /// `now`. A payload over the limit is refused with `MessageTooLarge`.
    /// Each topic the local node does not subscribe to gets its fanout entry
    /// stamped, or created from a sample of its subscribers. The message is
    /// recorded as seen, cached, and goes to the mesh and fanout peers of
    /// its topics.
    pub fn publish(
        &mut self,
        source: PeerId,
        seq_no: Vec<u8>,
        topics: Vec<TopicHash>,
        data: Vec<u8>,
        now: i64,
    ) -> (r: Result<Published, GError>)
        requires
            old(self).wf(),
        ensures
            final(self).wf(),
            r is Err == (data@.len() > MAX_MESSAGE_SIZE),
            r is Err ==> *final(self) == *old(self) && r == Err::<Published, GError>(GError::MessageTooLarge { size: data@.len() as usize }),
            r matches Ok(p) ==> {
                &&& p.message.source@ == source@
                &&& p.message.data@ == data@
                &&& p.message.seq_no@ == seq_no@
                &&& p.message.topics@ == topics@
                &&& p.message.stored_time() == now
                &&& p.message.hash_ok()
                &&& final(self).mesh == old(self).mesh
                &&& final(self).peer_view == old(self).peer_view
                &&& final(self).seen@ == seen_after(old(self).seen@, p.message.hash@)
                &&& forall|j: int| 0 <= j < topics@.len() ==> final(self).mesh@.contains_key(#[trigger] topics@[j]@)
                    || has_topic(final(self).fanout@, topics@[j]@)
                &&& peer_views(p.forward@).no_duplicates()
                &&& forall|x: Seq<u8>| #[trigger] peer_views(p.forward@).contains(x) <==> final(self).forwards_to(
                    topic_views(topics@),
                    source@,
                    source@,
                    x,
                )
                &&& old(self).mcache.holds_hash(p.message.hash@) ==> final(self).mcache@ == old(self).mcache@
                &&& !old(self).mcache.holds_hash(p.message.hash@) ==> {
                    &&& final(self).mcache@ == old(self).mcache@.update(0, old(self).mcache@[0].push(final(self).mcache@[0].last()))
                    &&& final(self).mcache@[0].last().same_content(p.message)
                }
                &&& fanout_published(old(self).fanout@, final(self).fanout@, old(self).peer_view@, now)
                &&& forall|j: int| 0 <= j < topics@.len() && !old(self).mesh@.contains_key(#[trigger] topics@[j]@)
                    ==> stamped(final(self).fanout@, topics@[j]@, now)
            },
    {
        if let Err(e) = check_message_size(&data) {
            return Err(e);
        }
        let msg = GMessage::new(source, data, seq_no, topics, now);
        self.seen.observe(&msg.hash);
        let copy = msg.duplicate();
        let ghost mc0 = self.mcache@;
        let added = self.mcache.put(copy);
        proof {
            if added {
                assert(self.mcache@[0] == mc0[0].push(copy));
                assert(self.mcache@[0].last() == copy);
            }
        }
        let ghost mid = *self;
        let ghost f0 = self.fanout@;
        let ghost pv0 = self.peer_view@;
        assert(f0.subrange(0, f0.len() as int) =~= f0);
        let mut i: usize = 0;
        while i < msg.topics.len()
            invariant
                self.wf(),
                self.mesh == mid.mesh,
                self.peer_view == mid.peer_view,
                self.seen == mid.seen,
                0 <= i <= msg.topics@.len(),
                forall|j: int| 0 <= j < i ==> self.mesh@.contains_key(#[trigger] msg.topics@[j]@)
                    || has_topic(self.fanout@, msg.topics@[j]@),
                self.mcache == mid.mcache,
                pv0 == self.peer_view@,
                fanout_published(f0, self.fanout@, pv0, now),
                forall|j: int| 0 <= j < i && !self.mesh@.contains_key(#[trigger] msg.topics@[j]@)
                    ==> stamped(self.fanout@, msg.topics@[j]@, now),
            decreases msg.topics@.len() - i,
        {
            let t = &msg.topics[i];
            let ghost before = self.fanout@;
            if !self.is_subscribed(t) {
                if self.fanout.touch(t, now) {
                    proof {
                        let k = choose|k: int| 0 <= k < before.len() && before[k].0 == t@;
                        assert(self.fanout@[k].0 == t@);
                        let idx = choose|idx: int| 0 <= idx < before.len() && before[idx].0 == t@
                            && self.fanout@ == before.update(idx, (before[idx].0, before[idx].1, now));
                        assert(self.fanout@[idx].2 == now);
                        assert(stamped(self.fanout@, t@, now));
                        assert forall|j: int| 0 <= j < i && !self.mesh@.contains_key(#[trigger] msg.topics@[j]@)
                            implies stamped(self.fanout@, msg.topics@[j]@, now) by {
                            let w = choose|w: int| 0 <= w < before.len() && before[w].0 == msg.topics@[j]@ && before[w].2 == now;
                            assert(self.fanout@[w].0 == before[w].0);
                        }
                        assert forall|w: int| 0 <= w < f0.len() implies #[trigger] self.fanout@[w].0 == f0[w].0
                            && self.fanout@[w].1 == f0[w].1 && (self.fanout@[w].2 == f0[w].2 || self.fanout@[w].2 == now) by {
                            assert(before[w].0 == f0[w].0);
                        }
                        assert forall|w: int| f0.len() <= w < self.fanout@.len() implies fresh_entry(f0, pv0, #[trigger] self.fanout@[w], now) by {
                            assert(fresh_entry(f0, pv0, before[w], now));
                        }
                    }
                } else {
                    let subs = self.peer_view.subscribers(t);
                    let off = self.next_random();
                    let sample = repair_mesh(Vec::new(), &subs, off);
                    let ghost sv = peer_views(sample.mesh@);
                    self.fanout.set(t, sample.mesh, now);
                    proof {
                        lemma_dedup_unique(sv);
                        let n = before.len() as int;
                        assert(self.fanout@ == before.push((t@, sv, now)));
                        assert(self.fanout@[n].0 == t@ && self.fanout@[n].2 == now);
                        assert(stamped(self.fanout@, t@, now));
                        assert(!has_topic(f0, t@)) by {
                            if has_topic(f0, t@) {
                                let w = choose|w: int| 0 <= w < f0.len() && f0[w].0 == t@;
                                assert(before[w].0 == t@);
                            }
                        }
                        assert(peer_views(subs@) == subscribers_of(pv0, t@));
                        assert(fresh_entry(f0, pv0, self.fanout@[n], now));
                        assert forall|j: int| 0 <= j < i && !self.mesh@.contains_key(#[trigger] msg.topics@[j]@)
                            implies stamped(self.fanout@, msg.topics@[j]@, now) by {
                            let w = choose|w: int| 0 <= w < before.len() && before[w].0 == msg.topics@[j]@ && before[w].2 == now;
                            assert(self.fanout@[w] == before[w]);
                        }
                        assert forall|w: int| 0 <= w < f0.len() implies #[trigger] self.fanout@[w].0 == f0[w].0
                            && self.fanout@[w].1 == f0[w].1 && (self.fanout@[w].2 == f0[w].2 || self.fanout@[w].2 == now) by {
                            assert(self.fanout@[w] == before[w]);
                        }
                        assert forall|w: int| f0.len() <= w < self.fanout@.len() implies fresh_entry(f0, pv0, #[trigger] self.fanout@[w], now) by {
                            if w < n {
                                assert(self.fanout@[w] == before[w]);
                            }
                        }
                    }
                }
            }
            assert forall|j: int| 0 <= j < i + 1 implies self.mesh@.contains_key(#[trigger] msg.topics@[j]@)
                || has_topic(self.fanout@, msg.topics@[j]@) by {
                if j < i && !self.mesh@.contains_key(msg.topics@[j]@) {
                    let k = choose|k: int| 0 <= k < before.len() && before[k].0 == msg.topics@[j]@;
                    assert(self.fanout@[k].0 == before[k].0);
                }
                if j == i && !self.mesh@.contains_key(msg.topics@[j]@) {
                    assert(has_topic(self.fanout@, t@));
                }
            }
            i = i + 1;
        }
        let forward = self.forward_targets(&msg.topics, &msg.source, &msg.source);
        Ok(Published { message: msg, forward })
    }

    /// Mesh repair of every subscribed topic, as the heartbeat does it first:
    /// each topic's mesh is brought within the water marks when it has that
    /// many subscribers, and takes them all otherwise. Returns the GRAFTs and
    /// PRUNEs to send, as (peer, topic).
    pub fn maintain_mesh(&mut self) -> (r: (Vec<(PeerId, TopicHash)>, Vec<(PeerId, TopicHash)>))
        requires
            old(self).wf(),
        ensures
            final(self).wf(),
            final(self).mesh@.dom() == old(self).mesh@.dom(),
            final(self).peer_view == old(self).peer_view,
            final(self).fanout == old(self).fanout,
            final(self).mcache == old(self).mcache,
            final(self).seen == old(self).seen,
            forall|t: Seq<char>| #[trigger] final(self).mesh@.contains_key(t) ==> mesh_settled(
                final(self).mesh@[t],
                subscribers_of(final(self).peer_view@, t),
            ),
            forall|k: int| 0 <= k < r.0@.len() ==> grafted_in(old(self).mesh@, final(self).mesh@, #[trigger] r.0@[k]),
            forall|k: int| 0 <= k < r.1@.len() ==> pruned_from(old(self).mesh@, final(self).mesh@, #[trigger] r.1@[k]),
            forall|t: Seq<char>| #[trigger] final(self).mesh@.contains_key(t) ==> repair_recorded(
                old(self).mesh@[t],
                subscribers_of(old(self).peer_view@, t),
                final(self).mesh@[t],
                r.0@,
                r.1@,
                t,
            ),
    {
        let ghost pre = *self;
        let topics = self.mesh.topics();
        let mut grafts: Vec<(PeerId, TopicHash)> = Vec::new();
        let mut prunes: Vec<(PeerId, TopicHash)> = Vec::new();
        let mut i: usize = 0;
        while i < topics.len()
            invariant
                self.wf(),
                self.mesh@.dom() == pre.mesh@.dom(),
                self.peer_view == pre.peer_view,
                self.fanout == pre.fanout,
                self.mcache == pre.mcache,
                self.seen == pre.seen,
                0 <= i <= topics@.len(),
                forall|t: Seq<char>| pre.mesh@.contains_key(t) <==> exists|j: int| 0 <= j < topics@.len() && topics@[j]@ == t,
                forall|j: int| 0 <= j < i ==> mesh_settled(
                    self.mesh@[#[trigger] topics@[j]@],
                    subscribers_of(self.peer_view@, topics@[j]@),
                ),
                forall|a: int, b: int| 0 <= a < b < topics@.len() ==> topics@[a]@ != topics@[b]@,
                forall|j: int| i <= j < topics@.len() ==> self.mesh@[#[trigger] topics@[j]@] == pre.mesh@[topics@[j]@],
                forall|k: int| 0 <= k < grafts@.len() ==> grafted_in(pre.mesh@, self.mesh@, #[trigger] grafts@[k])
                    && exists|j: int| 0 <= j < i && topics@[j]@ == grafts@[k].1@,
                forall|k: int| 0 <= k < prunes@.len() ==> pruned_from(pre.mesh@, self.mesh@, #[trigger] prunes@[k])
                    && exists|j: int| 0 <= j < i && topics@[j]@ == prunes@[k].1@,
                forall|j: int| 0 <= j < i ==> repair_recorded(
                    pre.mesh@[#[trigger] topics@[j]@],
                    subscribers_of(pre.peer_view@, topics@[j]@),
                    self.mesh@[topics@[j]@],
                    grafts@,
                    prunes@,
                    topics@[j]@,
                ),
            decreases topics@.len() - i,
        {
            let t = &topics[i];
            let ghost before = *self;
            assert(self.mesh@.contains_key(t@));
            let peers = match self.mesh.get_peers_from_topic(t) {
                Ok(ps) => ps,
                Err(_) => Vec::new(),
            };
            let subs = self.peer_view.subscribers(t);
            proof {
                lemma_subscribers_of(self.peer_view@, t@);
                assert forall|x: Seq<u8>| peer_views(peers@).contains(x) implies peer_views(subs@).contains(x) by {
                    assert(self.mesh@[t@].contains(x));
                }
            }
            let off = self.next_random();
            let rep = repair_mesh(peers, &subs, off);
            proof {
                lemma_dedup_unique(peer_views(rep.mesh@));
            }
            let new_mesh = rep.mesh;
            let ghost nv = peer_views(new_mesh@);
            let ghost gs_before = grafts@;
            let ghost ps_before = prunes@;
            self.mesh.insert(t.duplicate(), new_mesh);
            assert(self.mesh@[t@] == nv);
            assert(before.mesh@[t@] == pre.mesh@[t@]);
            assert forall|k: int| 0 <= k < grafts@.len() implies grafted_in(pre.mesh@, self.mesh@, #[trigger] grafts@[k])
                && exists|j: int| 0 <= j < i + 1 && topics@[j]@ == grafts@[k].1@ by {
                let j = choose|j: int| 0 <= j < i && topics@[j]@ == grafts@[k].1@;
                assert(topics@[j]@ != topics@[i as int]@);
            }
            assert forall|k: int| 0 <= k < prunes@.len() implies pruned_from(pre.mesh@, self.mesh@, #[trigger] prunes@[k])
                && exists|j: int| 0 <= j < i + 1 && topics@[j]@ == prunes@[k].1@ by {
                let j = choose|j: int| 0 <= j < i && topics@[j]@ == prunes@[k].1@;
                assert(topics@[j]@ != topics@[i as int]@);
            }
            let mut k: usize = 0;
            while k < rep.grafted.len()
                invariant
                    0 <= k <= rep.grafted@.len(),
                    self.mesh@[t@] == nv,
                    i < topics@.len(),
                    topics@[i as int]@ == t@,
                    forall|x: Seq<u8>| #[trigger] peer_views(rep.grafted@).contains(x) ==> nv.contains(x)
                        && !pre.mesh@[t@].contains(x),
                    self.mesh@.contains_key(t@),
                    forall|k2: int| 0 <= k2 < grafts@.len() ==> grafted_in(pre.mesh@, self.mesh@, #[trigger] grafts@[k2])
                        && exists|j: int| 0 <= j < i + 1 && topics@[j]@ == grafts@[k2].1@,
                    forall|z: int| 0 <= z < k ==> pair_listed(grafts@, #[trigger] peer_views(rep.grafted@)[z], t@),
                    forall|j: int| 0 <= j < i ==> repair_recorded(
                        pre.mesh@[#[trigger] topics@[j]@],
                        subscribers_of(pre.peer_view@, topics@[j]@),
                        self.mesh@[topics@[j]@],
                        grafts@,
                        prunes@,
                        topics@[j]@,
                    ),
                decreases rep.grafted@.len() - k,
            {
                let entry = (rep.grafted[k].duplicate(), t.duplicate());
                assert(peer_views(rep.grafted@)[k as int] == entry.0@);
                assert(peer_views(rep.grafted@).contains(entry.0@));
                let ghost gb = grafts@;
                grafts.push(entry);
                proof {
                    lemma_listed_push(gb, entry);
                    assert(grafts@[gb.len() as int] == entry);
                    assert(pair_listed(grafts@, peer_views(rep.grafted@)[k as int], t@));
                    assert forall|j: int| 0 <= j < i implies repair_recorded(
                        pre.mesh@[#[trigger] topics@[j]@],
                        subscribers_of(pre.peer_view@, topics@[j]@),
                        self.mesh@[topics@[j]@],
                        grafts@,
                        prunes@,
                        topics@[j]@,
                    ) by {
                        assert(repair_recorded(pre.mesh@[topics@[j]@], subscribers_of(pre.peer_view@, topics@[j]@),
                            self.mesh@[topics@[j]@], gb, prunes@, topics@[j]@));
                    }
                }
                assert forall|k2: int| 0 <= k2 < grafts@.len() implies grafted_in(pre.mesh@, self.mesh@, #[trigger] grafts@[k2])
                    && exists|j: int| 0 <= j < i + 1 && topics@[j]@ == grafts@[k2].1@ by {
                    if k2 < gb.len() {
                        assert(grafts@[k2] == gb[k2]);
                    } else {
                        assert(grafts@[k2] == entry);
                        assert(topics@[i as int]@ == grafts@[k2].1@);
                    }
                }
                k = k + 1;
            }
            let mut k: usize = 0;
            while k < rep.pruned.len()
                invariant
                    0 <= k <= rep.pruned@.len(),
                    self.mesh@[t@] == nv,
                    i < topics@.len(),
                    topics@[i as int]@ == t@,
                    forall|x: Seq<u8>| #[trigger] peer_views(rep.pruned@).contains(x) ==> pre.mesh@[t@].contains(x)
                        && !nv.contains(x),
                    self.mesh@.contains_key(t@),
                    pre.mesh@.contains_key(t@),
                    forall|k2: int| 0 <= k2 < prunes@.len() ==> pruned_from(pre.mesh@, self.mesh@, #[trigger] prunes@[k2])
                        && exists|j: int| 0 <= j < i + 1 && topics@[j]@ == prunes@[k2].1@,
                    forall|z: int| 0 <= z < k ==> pair_listed(prunes@, #[trigger] peer_views(rep.pruned@)[z], t@),
                    forall|z: int| 0 <= z < rep.grafted@.len() ==> pair_listed(grafts@, #[trigger] peer_views(rep.grafted@)[z], t@),
                    forall|j: int| 0 <= j < i ==> repair_recorded(
                        pre.mesh@[#[trigger] topics@[j]@],
                        subscribers_of(pre.peer_view@, topics@[j]@),
                        self.mesh@[topics@[j]@],
                        grafts@,
                        prunes@,
                        topics@[j]@,
                    ),
                decreases rep.pruned@.len() - k,
            {
                let entry = (rep.pruned[k].duplicate(), t.duplicate());
                assert(peer_views(rep.pruned@)[k as int] == entry.0@);
                assert(peer_views(rep.pruned@).contains(entry.0@));
                let ghost pb = prunes@;
                prunes.push(entry);
                proof {
                    lemma_listed_push(pb, entry);
                    assert(prunes@[pb.len() as int] == entry);
                    assert(pair_listed(prunes@, peer_views(rep.pruned@)[k as int], t@));
                    assert forall|j: int| 0 <= j < i implies repair_recorded(
                        pre.mesh@[#[trigger] topics@[j]@],
                        subscribers_of(pre.peer_view@, topics@[j]@),
                        self.mesh@[topics@[j]@],
                        grafts@,
                        prunes@,
                        topics@[j]@,
                    ) by {
                        assert(repair_recorded(pre.mesh@[topics@[j]@], subscribers_of(pre.peer_view@, topics@[j]@),
                            self.mesh@[topics@[j]@], grafts@, pb, topics@[j]@));
                    }
                }
                assert forall|k2: int| 0 <= k2 < prunes@.len() implies pruned_from(pre.mesh@, self.mesh@, #[trigger] prunes@[k2])
                    && exists|j: int| 0 <= j < i + 1 && topics@[j]@ == prunes@[k2].1@ by {
                    if k2 < pb.len() {
                        assert(prunes@[k2] == pb[k2]);
                    } else {
                        assert(prunes@[k2] == entry);
                        assert(topics@[i as int]@ == prunes@[k2].1@);
                    }
                }
                k = k + 1;
            }
            proof {
                let sv = subscribers_of(self.peer_view@, t@);
                assert(self.mesh@[t@] == peer_views(new_mesh@));
                assert(mesh_settled(self.mesh@[t@], sv));
                assert(self.mesh@.dom() =~= pre.mesh@.dom());
                assert forall|j: int| i + 1 <= j < topics@.len() implies self.mesh@[#[trigger] topics@[j]@] == pre.mesh@[topics@[j]@] by {
                    assert(topics@[i as int]@ != topics@[j]@);
                }
                assert forall|j: int| 0 <= j < i + 1 implies mesh_settled(
                    self.mesh@[#[trigger] topics@[j]@],
                    subscribers_of(self.peer_view@, topics@[j]@),
                ) by {
                    if topics@[j]@ != t@ {
                        assert(self.mesh@[topics@[j]@] == before.mesh@[topics@[j]@]);
                    }
                }
                assert forall|u: Seq<char>, p: Seq<u8>|
                    self.mesh@.contains_key(u) && #[trigger] self.mesh@[u].contains(p) implies self.peer_view@.contains((p, u)) by {
                    if u == t@ {
                        assert(peer_views(subs@).contains(p));
                    } else {
                        assert(before.mesh@[u].contains(p));
                    }
                }
                let bv = pre.mesh@[t@];
                assert(peer_views(peers@) == bv);
                assert(peer_views(subs@) == subscribers_of(pre.peer_view@, t@));
                if bv.len() < LOW_WM_MESH_DEGREE {
                    assert(nv.subrange(0, bv.len() as int) =~= bv);
                }
                assert forall|x: Seq<u8>| #[trigger] nv.contains(x) && !bv.contains(x) implies pair_listed(grafts@, x, t@) by {
                    assert(peer_views(rep.grafted@).contains(x));
                    let z = choose|z: int| 0 <= z < peer_views(rep.grafted@).len() && peer_views(rep.grafted@)[z] == x;
                }
                assert forall|x: Seq<u8>| #[trigger] bv.contains(x) && !nv.contains(x) implies pair_listed(prunes@, x, t@) by {
                    assert(peer_views(rep.pruned@).contains(x));
                    let z = choose|z: int| 0 <= z < peer_views(rep.pruned@).len() && peer_views(rep.pruned@)[z] == x;
                }
                assert(repair_recorded(bv, subscribers_of(pre.peer_view@, t@), self.mesh@[t@], grafts@, prunes@, t@));
                assert forall|j: int| 0 <= j < i + 1 implies repair_recorded(
                    pre.mesh@[#[trigger] topics@[j]@],
                    subscribers_of(pre.peer_view@, topics@[j]@),
                    self.mesh@[topics@[j]@],
                    grafts@,
                    prunes@,
                    topics@[j]@,
                ) by {
                    if j < i {
                        assert(topics@[j]@ != t@);
                        assert(self.mesh@[topics@[j]@] == before.mesh@[topics@[j]@]);
                    }
                }
            }
            i = i + 1;
        }
        proof {
            assert forall|t: Seq<char>| #[trigger] self.mesh@.contains_key(t) implies mesh_settled(
                self.mesh@[t],
                subscribers_of(self.peer_view@, t),
            ) && repair_recorded(
                pre.mesh@[t],
                subscribers_of(pre.peer_view@, t),
                self.mesh@[t],
                grafts@,
                prunes@,
                t,
            ) by {
                let j = choose|j: int| 0 <= j < topics@.len() && topics@[j]@ == t;
            }
        }
        (grafts, prunes)
    }

    /// Every fanout peer subscribes to the topic of its entry.
    pub open spec fn fanout_subscribed(&self) -> bool {
        forall|i: int, x: Seq<u8>| 0 <= i < self.fanout@.len() && #[trigger] self.fanout@[i].1.contains(x)
            ==> self.peer_view@.contains((x, self.fanout@[i].0))
    }

    /// Replaces the peers of each fanout entry that holds a peer no longer
    /// subscribed to its topic by a fresh sample of the topic's subscribers,
    /// keeping its time of last publish.
    pub fn replenish_fanout(&mut self)
        requires
            old(self).wf(),
        ensures
            final(self).wf(),
            final(self).fanout_subscribed(),
            final(self).fanout@.len() == old(self).fanout@.len(),
            forall|i: int| 0 <= i < old(self).fanout@.len() ==> (#[trigger] final(self).fanout@[i]).0 == old(self).fanout@[i].0
                && final(self).fanout@[i].2 == old(self).fanout@[i].2,
            final(self).mesh == old(self).mesh,
            final(self).peer_view == old(self).peer_view,
            final(self).mcache == old(self).mcache,
            final(self).seen == old(self).seen,
            forall|i: int| 0 <= i < old(self).fanout@.len() ==> replenished(
                #[trigger] old(self).fanout@[i],
                old(self).peer_view@,
                final(self).fanout@[i].1,
            ),
    {
        let ghost pre = *self;
        let topics = self.fanout.topics();
        let mut j: usize = 0;
        while j < topics.len()
            invariant
                self.wf(),
                self.mesh == pre.mesh,
                self.peer_view == pre.peer_view,
                self.mcache == pre.mcache,
                self.seen == pre.seen,
                0 <= j <= topics@.len(),
                topics@.len() == pre.fanout@.len(),
                self.fanout@.len() == pre.fanout@.len(),
                forall|k: int| 0 <= k < topics@.len() ==> (#[trigger] topics@[k])@ == pre.fanout@[k].0,
                forall|k: int| 0 <= k < pre.fanout@.len() ==> (#[trigger] self.fanout@[k]).0 == pre.fanout@[k].0
                    && self.fanout@[k].2 == pre.fanout@[k].2,
                forall|k: int, x: Seq<u8>| 0 <= k < j && #[trigger] self.fanout@[k].1.contains(x)
                    ==> self.peer_view@.contains((x, self.fanout@[k].0)),
                forall|k: int| j <= k < pre.fanout@.len() ==> #[trigger] self.fanout@[k] == pre.fanout@[k],
                forall|k: int| 0 <= k < j ==> replenished(#[trigger] pre.fanout@[k], pre.peer_view@, self.fanout@[k].1),
            decreases topics@.len() - j,
        {
            let t = &topics[j];
            let ghost before = self.fanout@;
            assert(before[j as int].0 == t@);
            let peers = match self.fanout.peers_of(t) {
                Some(ps) => ps,
                None => Vec::new(),
            };
            proof {
                let k = choose|k: int| 0 <= k < before.len() && before[k].0 == t@ && before[k].1 == peer_views(peers@);
                if k != j as int {
                    if k < j {
                        assert(before[k].0 != before[j as int].0);
                    } else {
                        assert(before[j as int].0 != before[k].0);
                    }
                }
            }
            let mut all_sub = true;
            let mut q: usize = 0;
            while q < peers.len()
                invariant
                    0 <= q <= peers@.len(),
                    all_sub == forall|z: int| 0 <= z < q ==> self.peer_view@.contains((#[trigger] peers@[z]@, t@)),
                decreases peers@.len() - q,
            {
                if !self.peer_view.is_subscribed(&peers[q], t) {
                    all_sub = false;
                }
                q = q + 1;
            }
            proof {
                let e = pre.fanout@[j as int];
                assert(e == before[j as int]);
                assert(e.1 == peer_views(peers@));
                if all_sub {
                    assert forall|x: Seq<u8>| e.1.contains(x) implies self.peer_view@.contains((x, e.0)) by {
                        let z = choose|z: int| 0 <= z < e.1.len() && e.1[z] == x;
                        assert(peers@[z]@ == x);
                    }
                } else {
                    let z = choose|z: int| 0 <= z < q && !self.peer_view@.contains((#[trigger] peers@[z]@, t@));
                    assert(e.1[z] == peers@[z]@);
                    assert(e.1.contains(peers@[z]@));
                }
                assert(entry_subscribed(e, pre.peer_view@) == all_sub);
            }
            if !all_sub {
                let last = match self.fanout.last_published(t) {
                    Some(x) => x,
                    None => 0,
                };
                proof {
                    let k = choose|k: int| 0 <= k < before.len() && before[k].0 == t@ && before[k].2 == last;
                    if k != j as int {
                        if k < j {
                            assert(before[k].0 != before[j as int].0);
                        } else {
                            assert(before[j as int].0 != before[k].0);
                        }
                    }
                }
                let subs = self.peer_view.subscribers(t);
                let off = self.next_random();
                let sample = repair_mesh(Vec::new(), &subs, off);
                let ghost sv = peer_views(sample.mesh@);
                self.fanout.set(t, sample.mesh, last);
                proof {
                    lemma_dedup_unique(sv);
                    lemma_subscribers_of(self.peer_view@, t@);
                    let k = choose|k: int| 0 <= k < before.len() && before[k].0 == t@
                        && self.fanout@ == before.update(k, (t@, dedup(sv), last));
                    if k != j as int {
                        if k < j {
                            assert(before[k].0 != before[j as int].0);
                        } else {
                            assert(before[j as int].0 != before[k].0);
                        }
                    }
                    assert forall|x: Seq<u8>| self.fanout@[j as int].1.contains(x) implies self.peer_view@.contains((x, t@)) by {
                        assert(peer_views(subs@).contains(x));
                    }
                    assert(self.fanout@[j as int].1 == sv);
                    assert(peer_views(subs@) == subscribers_of(pre.peer_view@, t@));
                    assert(replenished(pre.fanout@[j as int], pre.peer_view@, self.fanout@[j as int].1));
                }
            } else {
                proof {
                    assert forall|x: Seq<u8>| self.fanout@[j as int].1.contains(x) implies self.peer_view@.contains((x, t@)) by {
                        let z = choose|z: int| 0 <= z < peer_views(peers@).len() && peer_views(peers@)[z] == x;
                        assert(peers@[z]@ == x);
                    }
                }
            }
            proof {
                assert forall|k: int, x: Seq<u8>| 0 <= k < j + 1 && #[trigger] self.fanout@[k].1.contains(x)
                    implies self.peer_view@.contains((x, self.fanout@[k].0)) by {
                    if k < j {
                        assert(self.fanout@[k] == before[k]);
                    }
                }
                assert forall|k: int| j + 1 <= k < pre.fanout@.len() implies #[trigger] self.fanout@[k] == pre.fanout@[k] by {
                    assert(self.fanout@[k] == before[k]);
                }
                assert forall|k: int| 0 <= k < j + 1 implies replenished(#[trigger] pre.fanout@[k], pre.peer_view@, self.fanout@[k].1) by {
                    if k < j {
                        assert(self.fanout@[k] == before[k]);
                    }
                }
            }
            j = j + 1;
        }
    }

    /// The peers of the fanout entry of topic `t`, if it has one.
    pub fn fanout_peers(&self, t: &TopicHash) -> (r: Vec<PeerId>)
        requires
            self.wf(),
        ensures
            forall|x: Seq<u8>| #[trigger] peer_views(r@).contains(x) <==> exists|i: int|
                0 <= i < self.fanout@.len() && self.fanout@[i].0 == t@ && #[trigger] self.fanout@[i].1.contains(x),
    {
        match self.fanout.peers_of(t) {
            Some(ps) => {
                proof {
                    let k0 = choose|k: int| 0 <= k < self.fanout@.len() && self.fanout@[k].0 == t@ && self.fanout@[k].1 == peer_views(ps@);
                    assert forall|x: Seq<u8>| #[trigger] peer_views(ps@).contains(x) <==> exists|i: int|
                        0 <= i < self.fanout@.len() && self.fanout@[i].0 == t@ && #[trigger] self.fanout@[i].1.contains(x) by {
                        if peer_views(ps@).contains(x) {
                            assert(self.fanout@[k0].1.contains(x));
                        }
                        if exists|i: int| 0 <= i < self.fanout@.len() && self.fanout@[i].0 == t@ && #[trigger] self.fanout@[i].1.contains(x) {
                            let k = choose|i: int| 0 <= i < self.fanout@.len() && self.fanout@[i].0 == t@ && #[trigger] self.fanout@[i].1.contains(x);
                            if k != k0 {
                                if k < k0 {
                                    assert(self.fanout@[k].0 != self.fanout@[k0].0);
                                } else {
                                    assert(self.fanout@[k0].0 != self.fanout@[k].0);
                                }
                            }
                        }
                    }
                }
                ps
            },
            None => {
                let r: Vec<PeerId> = Vec::new();
                assert(peer_views(r@) =~= Seq::<Seq<u8>>::empty());
                r
            },
        }
    }

    /// The subscribers of topic `t` that are neither in its mesh nor in its
    /// fanout entry: the peers that gossip about `t` goes to.
    pub fn gossip_candidates(&self, t: &TopicHash) -> (r: Vec<PeerId>)
        requires
            self.wf(),
        ensures
            peer_views(r@).no_duplicates(),
            forall|x: Seq<u8>| #[trigger] peer_views(r@).contains(x) <==> (self.peer_view@.contains((x, t@))
                && !self.targets(t@, x)),
            self.gossip_set(t@).finite(),
            peer_views(r@).len() == self.gossip_set(t@).len(),
    {
        let subs = self.peer_view.subscribers(t);
        let mesh_peers = match self.mesh.get_peers_from_topic(t) {
            Ok(ps) => ps,
            Err(_) => Vec::new(),
        };
        assert(!self.mesh@.contains_key(t@) ==> peer_views(mesh_peers@) =~= Seq::<Seq<u8>>::empty());
        let fan_peers = self.fanout_peers(t);
        let ghost sv = peer_views(subs@);
        let mut out: Vec<PeerId> = Vec::new();
        let mut i: usize = 0;
        while i < subs.len()
            invariant
                0 <= i <= subs@.len(),
                sv == peer_views(subs@),
                sv.no_duplicates(),
                peer_views(out@).no_duplicates(),
                forall|x: Seq<u8>| #[trigger] peer_views(out@).contains(x) <==> (sv.subrange(0, i as int).contains(x)
                    && !peer_views(mesh_peers@).contains(x) && !peer_views(fan_peers@).contains(x)),
            decreases subs@.len() - i,
        {
            let c = &subs[i];
            assert(sv[i as int] == c@);
            let ghost before = peer_views(out@);
            let s1 = Ghost(sv.subrange(0, i as int));
            let s2 = Ghost(sv.subrange(0, i as int + 1));
            assert(s2@ =~= s1@.push(c@));
            if !contains_peer(&mesh_peers, c) && !contains_peer(&fan_peers, c) {
                out.push(c.duplicate());
                assert(peer_views(out@) =~= before.push(c@));
                proof {
                    if before.contains(c@) {
                        let k = choose|k: int| 0 <= k < s1@.len() && s1@[k] == c@;
                        assert(sv[k] == sv[i as int]);
                    }
                    assert forall|p: int, q: int| 0 <= p < q < peer_views(out@).len() implies peer_views(out@)[p] != peer_views(out@)[q] by {
                        if q == before.len() {
                            assert(before.contains(before[p]));
                        }
                    }
                }
            }
            proof {
                assert forall|x: Seq<u8>| #[trigger] peer_views(out@).contains(x) <==> (s2@.contains(x)
                    && !peer_views(mesh_peers@).contains(x) && !peer_views(fan_peers@).contains(x)) by {
                    if s2@.contains(x) {
                        let k = choose|k: int| 0 <= k < s2@.len() && s2@[k] == x;
                        if k < s1@.len() {
                            assert(s1@[k] == x);
                        }
                    }
                    if s1@.contains(x) {
                        let k = choose|k: int| 0 <= k < s1@.len() && s1@[k] == x;
                        assert(s2@[k] == x);
                    }
                    assert(s2@[i as int] == c@);
                    if peer_views(out@).contains(x) && !before.contains(x) {
                        let k = choose|k: int| 0 <= k < peer_views(out@).len() && peer_views(out@)[k] == x;
                        assert(k == before.len());
                    }
                    if before.contains(x) {
                        let k = choose|k: int| 0 <= k < before.len() && before[k] == x;
                        assert(peer_views(out@)[k] == x);
                    }
                    if x == c@ && peer_views(out@) != before {
                        assert(peer_views(out@)[before.len() as int] == x);
                    }
                }
            }
            i = i + 1;
        }
        proof {
            assert(sv.subrange(0, i as int) =~= sv);
            lemma_subscribers_of(self.peer_view@, t@);
            let ov = peer_views(out@);
            assert(ov.to_set() =~= self.gossip_set(t@)) by {
                assert forall|x: Seq<u8>| ov.to_set().contains(x) <==> self.gossip_set(t@).contains(x) by {
                    assert(ov.contains(x) == (self.peer_view@.contains((x, t@)) && !self.targets(t@, x)));
                }
            }
            ov.unique_seq_to_set();
        }
        out
    }

    /// The peers that gossip about topic `t` may go to: its subscribers
    /// outside its mesh and its fanout entry.
    pub open spec fn gossip_set(&self, t: Seq<char>) -> Set<Seq<u8>> {
        Set::new(|x: Seq<u8>| self.peer_view@.contains((x, t)) && !self.targets(t, x))
    }

    /// Whether topic `t` is gossiped about with the cache window `c`: it is
    /// a mesh or fanout topic, and the gossip window holds messages of it.
    pub open spec fn gossip_due(&self, c: Seq<Seq<GMessage>>, t: Seq<char>) -> bool {
        &&& (self.mesh@.contains_key(t) || has_topic(self.fanout@, t))
        &&& gossip_window(c, t).len() > 0
    }

    /// The IHAVE `e` offers, with the cache window `c`, the gossip window of
    /// its topic to one of the topic's gossip candidates.
    pub open spec fn ihave_valid(&self, c: Seq<Seq<GMessage>>, e: (PeerId, ControlIHave)) -> bool {
        &&& self.peer_view@.contains((e.0@, e.1.topic@))
        &&& !self.targets(e.1.topic@, e.0@)
        &&& rep_views(e.1.messages@) == gossip_window(c, e.1.topic@)
        &&& e.1.messages@.len() > 0
    }

    /// The IHAVEs `r` send, with the cache window `c`, for each topic due
    /// for gossip, to as many distinct candidates as the target degree
    /// allows, and nothing for any other topic.
    pub open spec fn gossip_complete(&self, c: Seq<Seq<GMessage>>, r: Seq<(PeerId, ControlIHave)>) -> bool {
        &&& forall|k: int| 0 <= k < r.len() ==> self.ihave_valid(c, #[trigger] r[k])
        &&& forall|t: Seq<char>| #![trigger ihave_peers(r, t)] self.gossip_due(c, t) ==> {
            &&& ihave_peers(r, t).no_duplicates()
            &&& ihave_peers(r, t).len() == (if self.gossip_set(t).len() < TARGET_MESH_DEGREE {
                self.gossip_set(t).len() as int
            } else {
                TARGET_MESH_DEGREE as int
            })
        }
        &&& forall|t: Seq<char>| #![trigger ihave_peers(r, t)] !self.gossip_due(c, t) ==> ihave_peers(r, t).len() == 0
    }

    /// The topics of the mesh and of the fanout, each once.
    pub fn gossip_topics(&self) -> (r: Vec<TopicHash>)
        requires
            self.wf(),
        ensures
            forall|a: int, b: int| 0 <= a < b < r@.len() ==> r@[a]@ != r@[b]@,
            forall|u: Seq<char>| topic_listed(r@, u) <==> (self.mesh@.contains_key(u)
                || has_topic(self.fanout@, u)),
    {
        let mut r = self.mesh.topics();
        let more = self.fanout.topics();
        let ghost n0 = r@.len();
        assert forall|u: Seq<char>| topic_listed(r@, u) <==> (self.mesh@.contains_key(u)
            || exists|k: int| 0 <= k < 0 && self.fanout@[k].0 == u) by {
            if self.mesh@.contains_key(u) {
                let j = choose|j: int| 0 <= j < r@.len() && r@[j]@ == u;
            }
        }
        let mut i: usize = 0;
        while i < more.len()
            invariant
                self.wf(),
                0 <= i <= more@.len(),
                n0 <= r@.len(),
                more@.len() == self.fanout@.len(),
                forall|k: int| 0 <= k < more@.len() ==> (#[trigger] more@[k])@ == self.fanout@[k].0,
                forall|a: int, b: int| 0 <= a < b < r@.len() ==> r@[a]@ != r@[b]@,
                forall|u: Seq<char>| topic_listed(r@, u) <==> (self.mesh@.contains_key(u)
                    || exists|k: int| 0 <= k < i && self.fanout@[k].0 == u),
            decreases more@.len() - i,
        {
            let t = &more[i];
            let mut found = false;
            let mut j: usize = 0;
            while j < r.len()
                invariant
                    0 <= j <= r@.len(),
                    found == exists|k: int| 0 <= k < j && r@[k]@ == t@,
                decreases r@.len() - j,
            {
                if r[j].same(t) {
                    found = true;
                }
                j = j + 1;
            }
            let ghost before = r@;
            if !found {
                r.push(t.duplicate());
                assert forall|a: int, b: int| 0 <= a < b < r@.len() implies r@[a]@ != r@[b]@ by {
                    if b == before.len() {
                        assert(r@[a] == before[a]);
                    }
                }
            }
            assert forall|u: Seq<char>| topic_listed(r@, u) <==> (self.mesh@.contains_key(u)
                || exists|k: int| 0 <= k < i + 1 && self.fanout@[k].0 == u) by {
                if topic_listed(r@, u) {
                    let j = choose|j: int| 0 <= j < r@.len() && r@[j]@ == u;
                    if j < before.len() {
                        assert(before[j]@ == u);
                        assert(topic_listed(before, u));
                    } else {
                        assert(more@[i as int]@ == self.fanout@[i as int].0);
                        assert(self.fanout@[i as int].0 == u);
                    }
                }
                if exists|k: int| 0 <= k < i + 1 && self.fanout@[k].0 == u {
                    let k = choose|k: int| 0 <= k < i + 1 && self.fanout@[k].0 == u;
                    if k < i {
                        assert(topic_listed(before, u));
                        let j = choose|j: int| 0 <= j < before.len() && before[j]@ == u;
                        assert(r@[j] == before[j]);
                    } else if !found {
                        assert(r@[before.len() as int]@ == u);
                    } else {
                        let j = choose|j: int| 0 <= j < before.len() && before[j]@ == t@;
                        assert(r@[j] == before[j]);
                    }
                }
                if self.mesh@.contains_key(u) {
                    assert(topic_listed(before, u));
                    let j = choose|j: int| 0 <= j < before.len() && before[j]@ == u;
                    assert(r@[j] == before[j]);
                }
            }
            i = i + 1;
        }
        proof {
            assert forall|u: Seq<char>| topic_listed(r@, u) <==> (self.mesh@.contains_key(u) || has_topic(self.fanout@, u)) by {
                if has_topic(self.fanout@, u) {
                    let k = choose|k: int| 0 <= k < self.fanout@.len() && self.fanout@[k].0 == u;
                }
            }
        }
        r
    }

    /// Gossip emission of the heartbeat: for each topic of the mesh or the
    /// fanout whose messages the gossip window holds, an IHAVE listing them
    /// goes to a sample of the topic's gossip candidates, as many as the
    /// target degree allows.
    pub fn emit_gossip(&mut self) -> (r: Vec<(PeerId, ControlIHave)>)
        requires
            old(self).wf(),
        ensures
            *final(self) == (Gossipsub { rng: final(self).rng, ..*old(self) }),
            old(self).gossip_complete(old(self).mcache@, r@),
    {
        let ghost pre = *self;
        let ghost c = pre.mcache@;
        let topics = self.gossip_topics();
        let mut out: Vec<(PeerId, ControlIHave)> = Vec::new();
        let mut i: usize = 0;
        while i < topics.len()
            invariant
                self.wf(),
                *self == (Gossipsub { rng: self.rng, ..pre }),
                c == pre.mcache@,
                0 <= i <= topics@.len(),
                forall|a: int, b: int| 0 <= a < b < topics@.len() ==> topics@[a]@ != topics@[b]@,
                forall|u: Seq<char>| topic_listed(topics@, u) <==> (pre.mesh@.contains_key(u)
                    || has_topic(pre.fanout@, u)),
                forall|k: int| 0 <= k < out@.len() ==> pre.ihave_valid(c, #[trigger] out@[k]),
                forall|j: int| 0 <= j < i ==> gossip_sent(pre, c, out@, #[trigger] topics@[j]@),
                forall|u: Seq<char>| #![trigger ihave_peers(out@, u)] (forall|j: int| 0 <= j < i ==> topics@[j]@ != u)
                    ==> ihave_peers(out@, u).len() == 0,
            decreases topics@.len() - i,
        {
            let t = &topics[i];
            assert(topics@[i as int]@ == t@);
            assert(topic_listed(topics@, t@));
            assert(pre.mesh@.contains_key(t@) || has_topic(pre.fanout@, t@));
            let ghost out0 = out@;
            let ids = self.mcache.gossip_ids(t);
            assert(ids@.len() == rep_views(ids@).len());
            if ids.len() > 0 {
                let cands = self.gossip_candidates(t);
                assert(self.gossip_set(t@) =~= pre.gossip_set(t@));
                let off = self.next_random();
                let picks = repair_mesh(Vec::new(), &cands, off).mesh;
                let ghost pv = peer_views(picks@);
                let mut q: usize = 0;
                assert(ihave_peers(out@, t@).len() == 0);
                assert(pv.subrange(0, 0) =~= Seq::<Seq<u8>>::empty());
                while q < picks.len()
                    invariant
                        0 <= q <= picks@.len(),
                        pv == peer_views(picks@),
                        pv.no_duplicates(),
                        ids@.len() > 0,
                        within(pv, peer_views(cands@)),
                        forall|x: Seq<u8>| #[trigger] peer_views(cands@).contains(x) <==> (pre.peer_view@.contains((x, t@))
                            && !pre.targets(t@, x)),
                        rep_views(ids@) == gossip_window(c, t@),
                        forall|k: int| 0 <= k < out@.len() ==> pre.ihave_valid(c, #[trigger] out@[k]),
                        ihave_peers(out@, t@) == pv.subrange(0, q as int),
                        forall|u: Seq<char>| #![trigger ihave_peers(out@, u)] u != t@ ==> ihave_peers(out@, u) == ihave_peers(out0, u),
                    decreases picks@.len() - q,
                {
                    let p = picks[q].duplicate();
                    proof {
                        assert(pv[q as int] == p@);
                        assert(pv.contains(p@));
                        assert(peer_views(cands@).contains(p@));
                    }
                    let msgs = copy_reps(&ids);
                    assert(msgs@.len() == rep_views(msgs@).len());
                    let ghost before = out@;
                    let entry = (p, ControlIHave { topic: t.duplicate(), messages: msgs });
                    out.push(entry);
                    proof {
                        assert(out@.drop_last() =~= before);
                        assert forall|k: int| 0 <= k < out@.len() implies pre.ihave_valid(c, #[trigger] out@[k]) by {
                            if k < before.len() {
                                assert(out@[k] == before[k]);
                            } else {
                                assert(out@[k] == entry);
                            }
                        }
                        assert(ihave_peers(out@, t@) == ihave_peers(before, t@).push(p@));
                        assert(pv.subrange(0, q as int + 1) =~= pv.subrange(0, q as int).push(p@));
                        assert forall|u: Seq<char>| #![trigger ihave_peers(out@, u)] u != t@ implies ihave_peers(out@, u) == ihave_peers(out0, u) by {
                            assert(ihave_peers(out@, u) == ihave_peers(before, u));
                        }
                    }
                    q = q + 1;
                }
                proof {
                    assert(pv.subrange(0, q as int) =~= pv);
                    assert(pre.gossip_due(c, t@));
                    assert(peer_views(cands@).len() == pre.gossip_set(t@).len());
                    assert(gossip_sent(pre, c, out@, t@));
                }
            } else {
                assert(!pre.gossip_due(c, t@));
                assert(gossip_sent(pre, c, out@, t@));
            }
            proof {
                assert forall|j: int| 0 <= j < i + 1 implies gossip_sent(pre, c, out@, #[trigger] topics@[j]@) by {
                    if j < i {
                        assert(topics@[j]@ != t@);
                        assert(ihave_peers(out@, topics@[j]@) == ihave_peers(out0, topics@[j]@));
                    }
                }
                assert forall|u: Seq<char>| #![trigger ihave_peers(out@, u)] (forall|j: int| 0 <= j < i + 1 ==> topics@[j]@ != u)
                    implies ihave_peers(out@, u).len() == 0 by {
                    assert(topics@[i as int]@ != u);
                    assert(ihave_peers(out@, u) == ihave_peers(out0, u));
                }
            }
            i = i + 1;
        }
        proof {
            assert forall|t: Seq<char>| #![trigger ihave_peers(out@, t)] pre.gossip_due(c, t) implies {
                &&& ihave_peers(out@, t).no_duplicates()
                &&& ihave_peers(out@, t).len() == (if pre.gossip_set(t).len() < TARGET_MESH_DEGREE {
                    pre.gossip_set(t).len() as int
                } else {
                    TARGET_MESH_DEGREE as int
                })
            } by {
                assert(topic_listed(topics@, t));
                let j = choose|j: int| 0 <= j < topics@.len() && topics@[j]@ == t;
                assert(gossip_sent(pre, c, out@, topics@[j]@));
            }
            assert forall|t: Seq<char>| #![trigger ihave_peers(out@, t)] !pre.gossip_due(c, t) implies ihave_peers(out@, t).len() == 0 by {
                if topic_listed(topics@, t) {
                    let j = choose|j: int| 0 <= j < topics@.len() && topics@[j]@ == t;
                    assert(gossip_sent(pre, c, out@, topics@[j]@));
                }
            }
        }
        out
    }

    /// One heartbeat at time `now`: mesh repair, fanout expiry, fanout
    /// replenishment, gossip emission, and the shift of the cache window.
    pub fn heartbeat(&mut self, now: i64) -> (r: HeartbeatOutput)
        requires
            old(self).wf(),
        ensures
            final(self).wf(),
            final(self).mesh@.dom() == old(self).mesh@.dom(),
            final(self).peer_view == old(self).peer_view,
            forall|t: Seq<char>| #[trigger] final(self).mesh@.contains_key(t) ==> mesh_settled(
                final(self).mesh@[t],
                subscribers_of(final(self).peer_view@, t),
            ),
            forall|i: int| 0 <= i < final(self).fanout@.len() ==> !expired((#[trigger] final(self).fanout@[i]).2, now),
            final(self).fanout_subscribed(),
            final(self).mcache@ == shifted(old(self).mcache@),
            final(self).seen == old(self).seen,
            forall|k: int| 0 <= k < r.grafts@.len() ==> grafted_in(old(self).mesh@, final(self).mesh@, #[trigger] r.grafts@[k]),
            forall|k: int| 0 <= k < r.prunes@.len() ==> pruned_from(old(self).mesh@, final(self).mesh@, #[trigger] r.prunes@[k]),
            forall|t: Seq<char>| #[trigger] final(self).mesh@.contains_key(t) ==> repair_recorded(
                old(self).mesh@[t],
                subscribers_of(old(self).peer_view@, t),
                final(self).mesh@[t],
                r.grafts@,
                r.prunes@,
                t,
            ),
            final(self).fanout@.len() == fresh_entries(old(self).fanout@, now).len(),
            forall|i: int| 0 <= i < final(self).fanout@.len() ==> {
                let e = #[trigger] fresh_entries(old(self).fanout@, now)[i];
                &&& final(self).fanout@[i].0 == e.0
                &&& final(self).fanout@[i].2 == e.2
                &&& replenished(e, old(self).peer_view@, final(self).fanout@[i].1)
            },
            (Gossipsub { mcache: old(self).mcache, ..*final(self) }).gossip_complete(old(self).mcache@, r.ihaves@),
    {
        let ghost start = *self;
        let (grafts, prunes) = self.maintain_mesh();
        let ghost after_mesh = *self;
        self.fanout.sweep(now);
        let ghost swept = self.fanout@;
        self.replenish_fanout();
        proof {
            assert forall|i: int| 0 <= i < self.fanout@.len() implies !expired((#[trigger] self.fanout@[i]).2, now) by {
                assert(swept.contains(swept[i]));
                assert(self.fanout@[i].2 == swept[i].2);
            }
        }
        let ghost before_gossip = *self;
        let ihaves = self.emit_gossip();
        let ghost after_gossip = *self;
        self.mcache.shift();
        proof {
            assert(after_gossip == (Gossipsub { mcache: start.mcache, ..*self }));
            assert(before_gossip.gossip_complete(start.mcache@, ihaves@));
            assert(after_gossip.gossip_complete(start.mcache@, ihaves@)) by {
                assert forall|t: Seq<char>| after_gossip.gossip_set(t) =~= before_gossip.gossip_set(t) by {}
            }
        }
        HeartbeatOutput { grafts, prunes, ihaves }
    }
}

/// The gossip window of topic `t` in the cache slots `c`: the references of
/// its messages in the newest slots.
pub open spec fn gossip_window(c: Seq<Seq<GMessage>>, t: Seq<char>) -> Seq<(bool, Seq<char>)> {
    window_ids(c, if c.len() < HISTORY_GOSSIP { c.len() as int } else { HISTORY_GOSSIP as int }, t)
}

/// Whether topic `u` is one of `s`.
pub open spec fn topic_listed(s: Seq<TopicHash>, u: Seq<char>) -> bool {
    exists|j: int| 0 <= j < s.len() && s[j]@ == u
}

/// The peers that the IHAVEs of `r` for topic `t` go to, in order.
pub open spec fn ihave_peers(r: Seq<(PeerId, ControlIHave)>, t: Seq<char>) -> Seq<Seq<u8>>
    decreases r.len(),
{
    if r.len() == 0 {
        Seq::empty()
    } else if r.last().1.topic@ == t {
        ihave_peers(r.drop_last(), t).push(r.last().0@)
    } else {
        ihave_peers(r.drop_last(), t)
    }
}

/// Gossip for topic `t` in `r` is as the heartbeat owes it: to as many
/// distinct candidates as the target degree allows when `t` is due, to
/// nobody otherwise.
pub open spec fn gossip_sent(g: Gossipsub, c: Seq<Seq<GMessage>>, r: Seq<(PeerId, ControlIHave)>, t: Seq<char>) -> bool {
    &&& g.gossip_due(c, t) ==> {
        &&& ihave_peers(r, t).no_duplicates()
        &&& ihave_peers(r, t).len() == (if g.gossip_set(t).len() < TARGET_MESH_DEGREE {
            g.gossip_set(t).len() as int
        } else {
            TARGET_MESH_DEGREE as int
        })
    }
    &&& !g.gossip_due(c, t) ==> ihave_peers(r, t).len() == 0
}

/// What a heartbeat sends: GRAFTs and PRUNEs as (peer, topic), and IHAVEs.
pub struct HeartbeatOutput {
    pub grafts: Vec<(PeerId, TopicHash)>,
    pub prunes: Vec<(PeerId, TopicHash)>,
    pub ihaves: Vec<(PeerId, ControlIHave)>,
}

/// A copy of a list of message references.
pub fn copy_reps(v: &Vec<MsgRep>) -> (r: Vec<MsgRep>)
    ensures
        rep_views(r@) == rep_views(v@),
{
    let mut r: Vec<MsgRep> = Vec::new();
    let mut i: usize = 0;
    while i < v.len()
        invariant
            0 <= i <= v@.len(),
            r@.len() == i,
            forall|j: int| 0 <= j < i ==> (#[trigger] r@[j])@ == v@[j]@,
        decreases v@.len() - i,
    {
        r.push(v[i].duplicate());
        i = i + 1;
    }
    assert(rep_views(r@) =~= rep_views(v@));
    r
}

/// The GRAFT `g` (peer, topic) added a peer that was not in the mesh of the
/// topic before and is in it after.
pub open spec fn grafted_in(before: Map<Seq<char>, Seq<Seq<u8>>>, after: Map<Seq<char>, Seq<Seq<u8>>>, g: (PeerId, TopicHash)) -> bool {
    &&& after.contains_key(g.1@)
    &&& after[g.1@].contains(g.0@)
    &&& !(before.contains_key(g.1@) && before[g.1@].contains(g.0@))
}

/// The PRUNE `p` (peer, topic) removed a peer that was in the mesh of the
/// topic before and is not in it after.
pub open spec fn pruned_from(before: Map<Seq<char>, Seq<Seq<u8>>>, after: Map<Seq<char>, Seq<Seq<u8>>>, p: (PeerId, TopicHash)) -> bool {
    &&& before.contains_key(p.1@)
    &&& before[p.1@].contains(p.0@)
    &&& !(after.contains_key(p.1@) && after[p.1@].contains(p.0@))
}

/// Some entry of `f` for topic `t` was last published at `now`.
pub open spec fn stamped(f: Seq<FanoutView>, t: Seq<char>, now: i64) -> bool {
    exists|i: int| 0 <= i < f.len() && f[i].0 == t && f[i].2 == now
}

/// `e` is a fanout entry created at `now` beside the entries `f0`: for a
/// topic they lack, with a fresh sample of the topic's subscribers in `pv`.
pub open spec fn fresh_entry(f0: Seq<FanoutView>, pv: Seq<(Seq<u8>, Seq<char>)>, e: FanoutView, now: i64) -> bool {
    &&& !has_topic(f0, e.0)
    &&& fresh_sample(e.1, subscribers_of(pv, e.0))
    &&& e.2 == now
}

/// Publishing at `now` took the fanout from `f0` to `f`: old entries keep
/// topic and peers and are stamped with `now` or left as they were; new
/// entries follow them, each a fresh sample for a new topic.
pub open spec fn fanout_published(f0: Seq<FanoutView>, f: Seq<FanoutView>, pv: Seq<(Seq<u8>, Seq<char>)>, now: i64) -> bool {
    &&& f.len() >= f0.len()
    &&& forall|i: int| 0 <= i < f0.len() ==> #[trigger] f[i].0 == f0[i].0 && f[i].1 == f0[i].1 && (f[i].2 == f0[i].2 || f[i].2 == now)
    &&& forall|i: int| f0.len() <= i < f.len() ==> fresh_entry(f0, pv, #[trigger] f[i], now)
}

/// Every peer of fanout entry `e` has announced its topic in `pv`.
pub open spec fn entry_subscribed(e: FanoutView, pv: Seq<(Seq<u8>, Seq<char>)>) -> bool {
    forall|x: Seq<u8>| e.1.contains(x) ==> pv.contains((x, e.0))
}

/// `peers` is a fresh sample of `subs`: distinct subscribers, as many as
/// the target degree allows.
pub open spec fn fresh_sample(peers: Seq<Seq<u8>>, subs: Seq<Seq<u8>>) -> bool {
    &&& peers.no_duplicates()
    &&& within(peers, subs)
    &&& peers.len() == (if subs.len() < TARGET_MESH_DEGREE { subs.len() as int } else { TARGET_MESH_DEGREE as int })
}

/// Fanout entry `e` ends with `peers`: kept when all its peers still
/// subscribe to its topic, else a fresh sample of the topic's subscribers.
pub open spec fn replenished(e: FanoutView, pv: Seq<(Seq<u8>, Seq<char>)>, peers: Seq<Seq<u8>>) -> bool {
    &&& entry_subscribed(e, pv) ==> peers == e.1
    &&& !entry_subscribed(e, pv) ==> fresh_sample(peers, subscribers_of(pv, e.0))
}

/// Whether (`x`, `t`) is one of the (peer, topic) pairs of `s`.
pub open spec fn pair_listed(s: Seq<(PeerId, TopicHash)>, x: Seq<u8>, t: Seq<char>) -> bool {
    exists|k: int| 0 <= k < s.len() && s[k].0@ == x && s[k].1@ == t
}

proof fn lemma_listed_push(s: Seq<(PeerId, TopicHash)>, e: (PeerId, TopicHash))
    ensures
        forall|x: Seq<u8>, t: Seq<char>| #[trigger] pair_listed(s, x, t) ==> pair_listed(s.push(e), x, t),
{
    assert forall|x: Seq<u8>, t: Seq<char>| #[trigger] pair_listed(s, x, t) implies pair_listed(s.push(e), x, t) by {
        let k = choose|k: int| 0 <= k < s.len() && s[k].0@ == x && s[k].1@ == t;
        assert(s.push(e)[k] == s[k]);
    }
}

/// The mesh of a topic went from `before` to `after` as the heartbeat
/// repairs it against its subscribers `subs`: below the low water mark old
/// peers stay and fresh subscribers join up to the target degree or until
/// none is left; above the high water mark it keeps the target degree of its
/// peers; otherwise it stays. Every peer added is in the GRAFTs and every
/// peer dropped in the PRUNEs, for topic `t`.
pub open spec fn repair_recorded(
    before: Seq<Seq<u8>>,
    subs: Seq<Seq<u8>>,
    after: Seq<Seq<u8>>,
    grafts: Seq<(PeerId, TopicHash)>,
    prunes: Seq<(PeerId, TopicHash)>,
    t: Seq<char>,
) -> bool {
    &&& before.len() < LOW_WM_MESH_DEGREE ==> {
        &&& after.len() >= before.len()
        &&& after.subrange(0, before.len() as int) == before
        &&& within(after, subs)
        &&& after.len() == (if subs.len() < TARGET_MESH_DEGREE { subs.len() as int } else { TARGET_MESH_DEGREE as int })
    }
    &&& before.len() > HIGH_WM_MESH_DEGREE ==> after.len() == TARGET_MESH_DEGREE && within(after, before)
    &&& LOW_WM_MESH_DEGREE <= before.len() <= HIGH_WM_MESH_DEGREE ==> after == before
    &&& forall|x: Seq<u8>| #[trigger] after.contains(x) && !before.contains(x) ==> pair_listed(grafts, x, t)
    &&& forall|x: Seq<u8>| #[trigger] before.contains(x) && !after.contains(x) ==> pair_listed(prunes, x, t)
}

/// A topic's mesh is settled against its subscribers: within the water
/// marks when there are at least the low water mark of subscribers, and
/// holding every subscriber otherwise.
pub open spec fn mesh_settled(mesh: Seq<Seq<u8>>, subs: Seq<Seq<u8>>) -> bool {
    &&& subs.len() >= LOW_WM_MESH_DEGREE ==> LOW_WM_MESH_DEGREE <= mesh.len() <= HIGH_WM_MESH_DEGREE
    &&& subs.len() < LOW_WM_MESH_DEGREE ==> within(subs, mesh) && within(mesh, subs)
}

/// Accepts a payload of at most the size limit; refuses a larger one with
/// `MessageTooLarge`, carrying its size.
pub fn check_message_size(data: &Vec<u8>) -> (r: Result<(), GError>)
    ensures
        r is Ok == (data@.len() <= MAX_MESSAGE_SIZE),
        r is Err ==> r == Err::<(), GError>(GError::MessageTooLarge { size: data@.len() as usize }),
{
    if data.len() > MAX_MESSAGE_SIZE {
        Err(GError::MessageTooLarge { size: data.len() })
    } else {
        Ok(())
    }
}

/// What became of a received message: whether it goes to the local
/// application, and the peers it is forwarded to.
pub struct MessageOutcome {
    pub deliver: bool,
    pub forward: Vec<PeerId>,
}

/// A published message and the peers it goes to.
pub struct Published {
    pub message: GMessage,
    pub forward: Vec<PeerId>,
}

/// Adds each peer of `candidates` other than `a` and `b` that `out` lacks.
fn add_targets(out: &mut Vec<PeerId>, candidates: &Vec<PeerId>, a: &PeerId, b: &PeerId)
    requires
        peer_views(old(out)@).no_duplicates(),
    ensures
        peer_views(final(out)@).no_duplicates(),
        forall|x: Seq<u8>| #[trigger] peer_views(final(out)@).contains(x) <==> (peer_views(old(out)@).contains(x)
            || (peer_views(candidates@).contains(x) && x != a@ && x != b@)),
{
    let ghost start = peer_views(out@);
    let ghost cv = peer_views(candidates@);
    let mut i: usize = 0;
    while i < candidates.len()
        invariant
            0 <= i <= candidates@.len(),
            cv == peer_views(candidates@),
            peer_views(out@).no_duplicates(),
            forall|x: Seq<u8>| #[trigger] peer_views(out@).contains(x) <==> (start.contains(x)
                || (cv.subrange(0, i as int).contains(x) && x != a@ && x != b@)),
        decreases candidates@.len() - i,
    {
        let c = &candidates[i];
        assert(cv[i as int] == c@);
        let ghost before = peer_views(out@);
        if !c.same(a) && !c.same(b) && !contains_peer(out, c) {
            out.push(c.duplicate());
            assert(peer_views(out@) =~= before.push(c@));
            assert forall|p: int, q: int| 0 <= p < q < peer_views(out@).len() implies peer_views(out@)[p] != peer_views(out@)[q] by {
                if q == before.len() {
                    assert(before.contains(before[p]));
                }
            }
        }
        assert forall|x: Seq<u8>| #[trigger] peer_views(out@).contains(x) <==> (start.contains(x)
            || (cv.subrange(0, i as int + 1).contains(x) && x != a@ && x != b@)) by {
            let s1 = cv.subrange(0, i as int);
            let s2 = cv.subrange(0, i as int + 1);
            assert(s2 =~= s1.push(c@));
            if s2.contains(x) {
                let k = choose|k: int| 0 <= k < s2.len() && s2[k] == x;
                if k < s1.len() {
                    assert(s1[k] == x);
                }
            }
            if s1.contains(x) {
                let k = choose|k: int| 0 <= k < s1.len() && s1[k] == x;
                assert(s2[k] == x);
            }
            assert(s2[i as int] == c@);
            if peer_views(out@).contains(x) && !before.contains(x) {
                let k = choose|k: int| 0 <= k < peer_views(out@).len() && peer_views(out@)[k] == x;
                assert(k == before.len());
            }
            if before.contains(x) {
                let k = choose|k: int| 0 <= k < before.len() && before[k] == x;
                assert(peer_views(out@)[k] == x);
            }
            if x == c@ && x != a@ && x != b@ && !before.contains(x) {
                assert(peer_views(out@)[before.len() as int] == x);
            }
        }
        i = i + 1;
    }
    assert(cv.subrange(0, i as int) =~= cv);
}

/// The views of a sequence of message references.
pub open spec fn rep_views(ids: Seq<MsgRep>) -> Seq<(bool, Seq<char>)> {
    ids.map_values(|x: MsgRep| x@)
}

/// An IHAVE that lists only messages the local node lacks is answered with
/// an IWANT for exactly those messages.
pub proof fn lemma_ihave_unknown_all_wanted(g: &Gossipsub, ids: Seq<(bool, Seq<char>)>)
    requires
        forall|i: int| 0 <= i < ids.len() ==> !g.knows(#[trigger] ids[i]),
    ensures
        g.unknown_ids(ids) == ids,
    decreases ids.len(),
{
    if ids.len() > 0 {
        let d = ids.drop_last();
        assert forall|i: int| 0 <= i < d.len() implies !g.knows(#[trigger] d[i]) by {
            assert(d[i] == ids[i]);
        }
        lemma_ihave_unknown_all_wanted(g, d);
        assert(!g.knows(ids[ids.len() - 1]));
        assert(d.push(ids.last()) =~= ids);
    }
}

/// An IHAVE that lists only messages the local node has gets no IWANT.
pub proof fn lemma_ihave_known_none_wanted(g: &Gossipsub, ids: Seq<(bool, Seq<char>)>)
    requires
        forall|i: int| 0 <= i < ids.len() ==> g.knows(#[trigger] ids[i]),
    ensures
        g.unknown_ids(ids).len() == 0,
    decreases ids.len(),
{
    if ids.len() > 0 {
        let d = ids.drop_last();
        assert forall|i: int| 0 <= i < d.len() implies g.knows(#[trigger] d[i]) by {
            assert(d[i] == ids[i]);
        }
        lemma_ihave_known_none_wanted(g, d);
        assert(g.knows(ids[ids.len() - 1]));
    }
}

/// No peer appears twice in the mesh of any topic or in any fanout entry.
pub proof fn lemma_no_duplicate_peers(g: &Gossipsub)
    requires
        g.wf(),
    ensures
        forall|t: Seq<char>| #[trigger] g.mesh@.contains_key(t) ==> g.mesh@[t].no_duplicates(),
        forall|i: int| 0 <= i < g.fanout@.len() ==> (#[trigger] g.fanout@[i]).1.no_duplicates(),
{
}

} // verus!
