use gossipsub::constants::{MAX_MESSAGE_SIZE, MSG_HIST_LEN, SEEN_MSGS_CACHE};
use gossipsub::control::{
    ControlGraft, ControlIHave, ControlIWant, ControlMessage, ControlPrune, GossipsubSubscription,
    GossipsubSubscriptionAction,
};
use gossipsub::errors::{GError, GraftErrors};
use gossipsub::gossipsub::{check_message_size, Gossipsub};
use gossipsub::fanout::Fanout;
use gossipsub::mcache::MCache;
use gossipsub::mesh::Mesh;
use gossipsub::peer_view::PeerView;
use gossipsub::message::{GMessage, MsgHash, MsgHashBuilder, MsgId, MsgMap, MsgRep};
use gossipsub::seen::SeenSet;
use gossipsub::types::{PeerId, TopicHash};

fn peer(n: u8) -> PeerId {
    PeerId::from_bytes(vec![0x12, n])
}

fn topic(s: &str) -> TopicHash {
    TopicHash::from_raw(s.to_string())
}

fn sub(action: GossipsubSubscriptionAction, t: &str) -> GossipsubSubscription {
    GossipsubSubscription { action, topic: topic(t) }
}

fn msg(src: u8, seq: &str, topics: &[&str], data: &[u8]) -> GMessage {
    GMessage::new(
        peer(src),
        data.to_vec(),
        seq.as_bytes().to_vec(),
        topics.iter().map(|t| topic(t)).collect(),
        1000,
    )
}

fn node_with_subscribers(t: &str, n: u8) -> Gossipsub {
    let mut g = Gossipsub::new(0);
    for i in 0..n {
        g.handle_subscription(&peer(i), &sub(GossipsubSubscriptionAction::Subscribe, t));
    }
    g
}

#[test]
fn mesh_forms_after_heartbeats() {
    let mut g = node_with_subscribers("T", 8);
    assert!(g.subscribe(&topic("T")));
    let first = g.heartbeat(0);
    let second = g.heartbeat(1000);
    let peers = g.mesh.get_peers_from_topic(&topic("T")).unwrap();
    assert_eq!(peers.len(), 6);
    assert_eq!(first.grafts.len() + second.grafts.len(), 6);
    let mut grafted: Vec<PeerId> = first.grafts.iter().map(|(p, _)| p.clone()).collect();
    grafted.sort_by(|a, b| a.to_bytes().cmp(&b.to_bytes()));
    grafted.dedup();
    assert_eq!(grafted.len(), 6);
}

#[test]
fn mesh_with_few_subscribers_takes_them_all() {
    let mut g = node_with_subscribers("T", 3);
    g.subscribe(&topic("T"));
    g.heartbeat(0);
    assert_eq!(g.mesh.get_peers_from_topic(&topic("T")).unwrap().len(), 3);
}

fn node_with_full_mesh(n: u8) -> Gossipsub {
    let mut g = node_with_subscribers("T", n);
    g.subscribe(&topic("T"));
    for i in 0..n {
        let reply = g.handle_graft(&peer(i), &topic("T"));
        assert!(reply.result.is_ok());
        assert!(!reply.prune);
    }
    g
}

#[test]
fn mesh_above_high_water_mark_shrinks() {
    let mut g = node_with_full_mesh(13);
    let out = g.heartbeat(0);
    assert_eq!(g.mesh.get_peers_from_topic(&topic("T")).unwrap().len(), 6);
    assert_eq!(out.prunes.len(), 7);
}

#[test]
fn mesh_at_high_water_mark_stays() {
    let mut g = node_with_full_mesh(12);
    let out = g.heartbeat(0);
    assert_eq!(g.mesh.get_peers_from_topic(&topic("T")).unwrap().len(), 12);
    assert_eq!(out.prunes.len(), 0);
    assert_eq!(out.grafts.len(), 0);
}

#[test]
fn duplicate_message_is_suppressed() {
    let mut g = node_with_full_mesh(5);
    let m = msg(9, "1", &["T"], b"hello");
    let first = g.handle_message(&peer(0), m.clone());
    assert!(first.deliver);
    assert_eq!(first.forward.len(), 4);
    assert!(!first.forward.contains(&peer(0)));
    let second = g.handle_message(&peer(0), m);
    assert!(!second.deliver);
    assert!(second.forward.is_empty());
}

#[test]
fn message_with_wrong_hash_is_rejected() {
    let mut g = node_with_full_mesh(5);
    let mut m = msg(9, "1", &["T"], b"hello");
    m.set_hash(MsgHash::from_raw("bogus".to_string()));
    let out = g.handle_message(&peer(0), m);
    assert!(!out.deliver);
    assert!(out.forward.is_empty());
}

#[test]
fn ihave_then_iwant_round_trip() {
    let mut g = node_with_full_mesh(5);
    let m = msg(9, "1", &["T"], b"cached");
    g.handle_message(&peer(0), m.clone());
    let id1 = MsgRep::Hash(m.get_hash().clone());
    let id2 = MsgRep::Hash(MsgHash::from_raw("unknown".to_string()));
    let want = g.handle_ihave(&vec![id1.clone(), id2.clone()]).unwrap();
    assert_eq!(want.messages, vec![id2]);
    let got = g.handle_iwant(&vec![id1]);
    assert_eq!(got.len(), 1);
    assert_eq!(got[0], m);
}

#[test]
fn ihave_of_only_known_ids_wants_nothing() {
    let mut g = node_with_full_mesh(5);
    let m = msg(9, "1", &["T"], b"cached");
    g.handle_message(&peer(0), m.clone());
    assert!(g.handle_ihave(&vec![MsgRep::Hash(m.get_hash().clone())]).is_none());
}

#[test]
fn ihave_of_only_unknown_ids_wants_them_all() {
    let g = Gossipsub::new(0);
    let ids = vec![
        MsgRep::Hash(MsgHash::from_raw("a".to_string())),
        MsgRep::Id(MsgId::from_raw("b".to_string())),
    ];
    assert_eq!(g.handle_ihave(&ids).unwrap().messages, ids);
}

#[test]
fn fanout_expires_after_ttl() {
    let mut g = node_with_subscribers("T", 8);
    let p = g.publish(peer(100), b"1".to_vec(), vec![topic("T")], b"x".to_vec(), 0).unwrap();
    assert_eq!(p.forward.len(), 6);
    assert_eq!(g.fanout.peers_of(&topic("T")).unwrap().len(), 6);
    g.heartbeat(60000);
    assert!(g.fanout.contains(&topic("T")));
    g.heartbeat(60001);
    assert!(!g.fanout.contains(&topic("T")));
}

#[test]
fn disconnect_cleans_every_view() {
    let mut g = node_with_full_mesh(5);
    g.handle_subscription(&peer(7), &sub(GossipsubSubscriptionAction::Subscribe, "U"));
    g.publish(peer(100), b"1".to_vec(), vec![topic("U")], b"x".to_vec(), 0).unwrap();
    assert!(g.fanout.peers_of(&topic("U")).unwrap().contains(&peer(7)));
    g.disconnect(&peer(7));
    g.disconnect(&peer(2));
    assert!(!g.mesh.get_peers_from_topic(&topic("T")).unwrap().contains(&peer(2)));
    assert!(!g.fanout.peers_of(&topic("U")).unwrap().contains(&peer(7)));
    assert!(!g.peer_view.is_subscribed(&peer(7), &topic("U")));
    assert!(!g.peer_view.is_subscribed(&peer(2), &topic("T")));
    assert!(g.peer_view.subscribers(&topic("T")).len() == 4);
}

#[test]
fn publish_size_limit() {
    assert_eq!(MAX_MESSAGE_SIZE, 1024 * 1024);
    assert!(check_message_size(&vec![0u8; MAX_MESSAGE_SIZE]).is_ok());
    let too_big = check_message_size(&vec![0u8; MAX_MESSAGE_SIZE + 1]);
    assert!(matches!(too_big, Err(GError::MessageTooLarge { size }) if size == MAX_MESSAGE_SIZE + 1));
    let mut g = Gossipsub::new(0);
    let err = g.publish(peer(1), b"2".to_vec(), vec![topic("T")], vec![0u8; MAX_MESSAGE_SIZE + 1], 0);
    assert!(matches!(err, Err(GError::MessageTooLarge { size }) if size == MAX_MESSAGE_SIZE + 1));
    let ok = g.publish(peer(1), b"1".to_vec(), vec![topic("T")], vec![0u8; 64], 0);
    assert!(ok.is_ok());
}

#[test]
fn graft_twice_is_a_no_op() {
    let mut g = node_with_full_mesh(5);
    let before = g.mesh.get_peers_from_topic(&topic("T")).unwrap();
    let reply = g.handle_graft(&peer(1), &topic("T"));
    assert!(!reply.prune);
    assert!(matches!(reply.result, Err(GError::AlreadyGrafted { .. })));
    assert_eq!(g.mesh.get_peers_from_topic(&topic("T")).unwrap(), before);
}

#[test]
fn graft_from_non_subscriber_is_pruned() {
    let mut g = node_with_full_mesh(2);
    let reply = g.handle_graft(&peer(50), &topic("T"));
    assert!(reply.prune);
    match reply.result {
        Err(GError::NotSubscribedToTopic { t_hash, peer_id }) => {
            assert_eq!(t_hash, "T");
            assert_eq!(peer_id, peer(50).to_base58());
        }
        _ => panic!("expected NotSubscribedToTopic"),
    }
    let other = g.handle_graft(&peer(0), &topic("V"));
    assert!(other.prune);
    assert!(other.result.is_ok());
}

#[test]
fn prune_and_unsubscribe_leave_the_mesh() {
    let mut g = node_with_full_mesh(3);
    assert!(g.handle_prune(&peer(0), &topic("T")));
    assert!(!g.handle_prune(&peer(0), &topic("T")));
    g.handle_subscription(&peer(1), &sub(GossipsubSubscriptionAction::Unsubscribe, "T"));
    let left = g.mesh.get_peers_from_topic(&topic("T")).unwrap();
    assert_eq!(left, vec![peer(2)]);
    let pruned = g.unsubscribe(&topic("T"));
    assert_eq!(pruned, vec![peer(2)]);
    assert!(!g.is_subscribed(&topic("T")));
}

#[test]
fn observe_twice() {
    let mut s = SeenSet::new();
    let h = MsgHash::from_raw("h".to_string());
    assert!(s.observe(&h));
    assert!(!s.observe(&h));
    assert_eq!(s.len(), 1);
}

#[test]
fn seen_set_is_bounded() {
    let mut s = SeenSet::new();
    for i in 0..(SEEN_MSGS_CACHE + 1) {
        assert!(s.observe(&MsgHash::from_raw(format!("h{}", i))));
    }
    assert_eq!(s.len(), SEEN_MSGS_CACHE as usize);
    assert!(!s.contains(&MsgHash::from_raw("h0".to_string())));
    assert!(s.contains(&MsgHash::from_raw("h1".to_string())));
}

#[test]
fn hash_matches_serialization() {
    let m = msg(1, "7", &["a", "b"], b"data");
    assert_eq!(MsgHash::new(m.clone()), *m.get_hash());
    let bytes = m.to_bytes();
    assert_eq!(m.get_hash().clone().into_string(), bs58::encode(&bytes).into_string());
    assert_ne!(m.get_hash().clone().into_string().into_bytes(), bytes);
    assert_eq!(MsgHashBuilder::new(m.clone()).build(), *m.get_hash());
}

#[test]
fn message_record_bytes() {
    let m = GMessage::new(PeerId::from_bytes(vec![1]), vec![2], vec![3], vec![topic("a")], 5);
    assert_eq!(m.to_bytes(), vec![0x0a, 1, 1, 0x12, 1, 2, 0x1a, 1, 3, 0x22, 1, b'a']);
    assert_eq!(m.get_timestamp(), 5);
    assert!(m.get_id().is_none());
}

#[test]
fn long_payload_uses_two_byte_length() {
    let m = GMessage::new(PeerId::from_bytes(vec![]), vec![7; 300], vec![], vec![], 0);
    let b = m.to_bytes();
    assert_eq!(&b[0..5], &[0x0a, 0, 0x12, 0xac, 0x02]);
    assert_eq!(b.len(), 2 + 3 + 300 + 2);
}

#[test]
fn message_id_concatenates_seq_no_and_source() {
    let m = GMessage::new(PeerId::from_bytes(vec![0, 1]), vec![], b"12".to_vec(), vec![topic("t")], 0);
    assert_eq!(PeerId::from_bytes(vec![0, 1]).to_base58(), "12");
    assert_eq!(MsgId::new(m).into_string(), "1212");
}

#[test]
fn set_id_and_timestamp() {
    let mut m = msg(1, "1", &["t"], b"d");
    let h = m.get_hash().clone();
    m.set_id(MsgId::from_raw("x".to_string()));
    assert_eq!(m.get_id().clone().unwrap().into_string(), "x");
    m.set_timestamp();
    assert!(m.get_timestamp() > 0);
    assert_eq!(*m.get_hash(), h);
}

#[test]
fn control_records() {
    assert_eq!(ControlGraft { topic: topic("ab") }.to_bytes(), vec![0x0a, 2, b'a', b'b']);
    assert_eq!(ControlPrune { topic: topic("c") }.to_bytes(), vec![0x0a, 1, b'c']);
    let want = ControlIWant { messages: vec![MsgRep::Id(MsgId::from_raw("x".to_string()))] };
    assert_eq!(want.to_bytes(), vec![0x0a, 1, b'x']);
    let have = ControlIHave { topic: topic("t"), messages: vec![MsgRep::Hash(MsgHash::from_raw("h".to_string()))] };
    assert_eq!(have.to_bytes(), vec![0x0a, 1, b't', 0x12, 1, b'h']);
    let ctrl = ControlMessage { ihave: vec![], iwant: vec![want], graft: vec![ControlGraft { topic: topic("g") }], prune: vec![] };
    assert_eq!(ctrl.to_bytes(), vec![0x12, 3, 0x0a, 1, b'x', 0x1a, 3, 0x0a, 1, b'g']);
    let s = sub(GossipsubSubscriptionAction::Subscribe, "t");
    assert_eq!(s.to_bytes(), vec![0x08, 1, 0x12, 1, b't']);
    let u = sub(GossipsubSubscriptionAction::Unsubscribe, "t");
    assert_eq!(u.to_bytes(), vec![0x08, 0, 0x12, 1, b't']);
}

#[test]
fn mesh_operations_and_errors() {
    let mut m = Mesh::new();
    let t = topic("t");
    assert!(matches!(m.get_peers_from_topic(&t), Err(GError::TopicNotInMesh { .. })));
    assert!(m.insert(t.clone(), vec![peer(1), peer(1), peer(2)]).is_none());
    assert_eq!(m.get_peers_from_topic(&t).unwrap(), vec![peer(1), peer(2)]);
    assert!(m.add_peer(t.clone(), peer(3)).is_ok());
    assert!(matches!(m.add_peer(t.clone(), peer(3)), Err(GError::AlreadyGrafted { .. })));
    assert!(m.add_peer(topic("absent"), peer(3)).is_ok());
    assert_eq!(m.get_peer_from_topic(t.clone(), peer(2)).unwrap(), peer(2));
    assert!(matches!(m.get_peer_from_topic(t.clone(), peer(9)), Err(GError::NotGraftedToTopic { .. })));
    assert!(matches!(m.get_peer_from_topic(topic("x"), peer(1)), Err(GError::TopicNotInMesh { .. })));
    assert!(m.remove_peer_from_topic(&t, peer(1)).is_ok());
    assert_eq!(m.get_peers_from_topic(&t).unwrap(), vec![peer(2), peer(3)]);
    assert!(matches!(m.remove_peer_from_topic(&t, peer(1)), Err(GError::NotGraftedToTopic { .. })));
    assert!(matches!(m.remove_peer_from_topic(&topic("x"), peer(1)), Err(GError::TopicNotInMesh { .. })));
    assert_eq!(m.insert(t.clone(), vec![]).unwrap(), vec![peer(2), peer(3)]);
    assert_eq!(m.remove(&t).unwrap(), Vec::<PeerId>::new());
    assert!(matches!(m.remove(&t), Err(GError::TopicNotInMesh { .. })));
}

#[test]
fn mcache_window() {
    let mut c = MCache::new();
    let a = msg(1, "1", &["t"], b"a");
    let b = msg(1, "2", &["u"], b"b");
    assert!(c.put(a.clone()));
    assert!(!c.put(a.clone()));
    c.put(b.clone());
    assert_eq!(c.gossip_ids(&topic("t")), vec![MsgRep::Hash(a.get_hash().clone())]);
    c.shift();
    let d = msg(1, "3", &["t"], b"d");
    c.put(d.clone());
    assert_eq!(
        c.gossip_ids(&topic("t")),
        vec![MsgRep::Hash(a.get_hash().clone()), MsgRep::Hash(d.get_hash().clone())]
    );
    c.shift();
    c.shift();
    assert_eq!(c.gossip_ids(&topic("t")), vec![MsgRep::Hash(d.get_hash().clone())]);
    assert!(c.get(&MsgRep::Hash(a.get_hash().clone())).is_some());
    for _ in 0..MSG_HIST_LEN {
        c.shift();
    }
    assert_eq!(c.history_len(), MSG_HIST_LEN as usize);
    assert!(c.get(&MsgRep::Hash(a.get_hash().clone())).is_none());
}

#[test]
fn mcache_lookup_by_id() {
    let mut c = MCache::new();
    let mut a = msg(1, "1", &["t"], b"a");
    a.set_id(MsgId::from_raw("id-a".to_string()));
    c.put(a.clone());
    assert_eq!(c.get(&MsgRep::Id(MsgId::from_raw("id-a".to_string()))).unwrap(), &a);
    assert!(c.get(&MsgRep::Id(MsgId::from_raw("id-b".to_string()))).is_none());
}

#[test]
fn graft_errors_record() {
    let e = GraftErrors::new();
    assert!(e.is_empty());
    let f = GraftErrors { has_errors: true, ..GraftErrors::new() };
    assert!(!f.is_empty());
}

#[test]
fn gossip_goes_to_peers_outside_the_mesh() {
    let mut g = node_with_subscribers("T", 10);
    g.subscribe(&topic("T"));
    g.heartbeat(0);
    let m = msg(200, "1", &["T"], b"gossip");
    let mesh_peer = g.mesh.get_peers_from_topic(&topic("T")).unwrap()[0].clone();
    g.handle_message(&mesh_peer, m.clone());
    let out = g.heartbeat(1000);
    assert_eq!(out.ihaves.len(), 4);
    let mesh = g.mesh.get_peers_from_topic(&topic("T")).unwrap();
    for (p, ih) in out.ihaves.iter() {
        assert!(!mesh.contains(p));
        assert_eq!(ih.messages, vec![MsgRep::Hash(m.get_hash().clone())]);
    }
}

#[test]
fn msg_map_insert_and_get() {
    let mut map = MsgMap::new();
    let a = msg(1, "1", &["t"], b"a");
    let b = msg(1, "2", &["t"], b"b");
    let key = MsgRep::Hash(a.get_hash().clone());
    assert!(map.insert(key.clone(), a.clone()).is_none());
    assert_eq!(map.get(&key), Some(&a));
    assert_eq!(map.insert(key.clone(), b.clone()), Some(a));
    assert_eq!(map.get(&key), Some(&b));
    assert!(map.get(&MsgRep::Id(MsgId::from_raw("none".to_string()))).is_none());
}

#[test]
fn xorshift_step() {
    let mut g = Gossipsub::new(1);
    assert_eq!(g.next_random(), 1082269761);
    assert_eq!(g.rng, 1082269761);
}

#[test]
fn peer_view_subscriptions() {

    let mut v = PeerView::new();
    assert!(v.subscribe(&peer(1), &topic("t")));
    assert!(!v.subscribe(&peer(1), &topic("t")));
    v.subscribe(&peer(2), &topic("t"));
    v.subscribe(&peer(2), &topic("u"));
    assert_eq!(v.subscribers(&topic("t")), vec![peer(1), peer(2)]);
    assert!(v.unsubscribe(&peer(1), &topic("t")));
    assert!(!v.unsubscribe(&peer(1), &topic("t")));
    assert_eq!(v.subscribers(&topic("t")), vec![peer(2)]);
    v.remove_peer(&peer(2));
    assert!(v.subscribers(&topic("u")).is_empty());
}

#[test]
fn fanout_table() {

    let mut f = Fanout::new();
    f.set(&topic("t"), vec![peer(1), peer(2), peer(1)], 10);
    assert_eq!(f.peers_of(&topic("t")).unwrap(), vec![peer(1), peer(2)]);
    assert_eq!(f.last_published(&topic("t")), Some(10));
    assert!(f.touch(&topic("t"), 20));
    assert!(!f.touch(&topic("u"), 20));
    f.set(&topic("u"), vec![peer(3)], 0);
    f.sweep(60020);
    assert!(f.contains(&topic("t")));
    assert!(!f.contains(&topic("u")));
    f.remove_peer(&peer(1));
    assert_eq!(f.peers_of(&topic("t")).unwrap(), vec![peer(2)]);
    assert_eq!(f.len(), 1);
}

#[test]
fn publish_again_stamps_fanout() {
    let mut g = node_with_subscribers("T", 3);
    g.publish(peer(100), b"1".to_vec(), vec![topic("T")], b"x".to_vec(), 5).unwrap();
    let peers = g.fanout.peers_of(&topic("T")).unwrap();
    assert_eq!(peers.len(), 3);
    assert_eq!(g.fanout.last_published(&topic("T")), Some(5));
    let p = g.publish(peer(100), b"2".to_vec(), vec![topic("T")], b"y".to_vec(), 9).unwrap();
    assert_eq!(g.fanout.last_published(&topic("T")), Some(9));
    assert_eq!(g.fanout.peers_of(&topic("T")).unwrap(), peers);
    assert!(g.mcache.get(&MsgRep::Hash(p.message.get_hash().clone())).is_some());
}
