use vstd::prelude::*;
use crate::errors::{is_already_grafted, is_not_grafted, is_topic_not_in_mesh, GError};
use crate::peers::{contains_peer, copy_peers, dedup, dedup_peers, lemma_dedup, peer_views, remove_peer_value};
use crate::types::{PeerId, TopicHash};

verus! {

/// The topic mesh: for each topic, the peers that messages of the topic are
/// forwarded to and received from.
pub struct Mesh {
    m: Vec<(TopicHash, Vec<PeerId>)>,
}

impl View for Mesh {
    /// Each topic in the mesh, with its peers in the order they were grafted.
    type V = Map<Seq<char>, Seq<Seq<u8>>>;

    closed spec fn view(&self) -> Map<Seq<char>, Seq<Seq<u8>>> {
        Map::new(
            |t: Seq<char>| exists|i: int| 0 <= i < self.m@.len() && self.m@[i].0@ == t,
            |t: Seq<char>|
                peer_views(self.m@[choose|i: int| 0 <= i < self.m@.len() && self.m@[i].0@ == t].1@),
        )
    }
}

impl Mesh {
    /// No topic is listed twice.
    pub closed spec fn keys_distinct(&self) -> bool {
        forall|i: int, j: int|
            0 <= i < self.m@.len() && 0 <= j < self.m@.len() && i != j
                ==> self.m@[i].0@ != self.m@[j].0@
    }

    /// The mesh is well formed: no topic twice, no peer twice in a topic.
    pub open spec fn wf(&self) -> bool {
        &&& self.keys_distinct()
        &&& forall|t: Seq<char>| #[trigger] self@.contains_key(t) ==> self@[t].no_duplicates()
    }

    proof fn lemma_at(&self, i: int)
        requires
            self.keys_distinct(),
            0 <= i < self.m@.len(),
        ensures
            self@.contains_key(self.m@[i].0@),
            self@[self.m@[i].0@] == peer_views(self.m@[i].1@),
    {
        let t = self.m@[i].0@;
        assert(self@.dom().contains(t));
        let j = choose|j: int| 0 <= j < self.m@.len() && self.m@[j].0@ == t;
        assert(j == i);
    }

    fn find(&self, t: &TopicHash) -> (r: Option<usize>)
        requires
            self.keys_distinct(),
        ensures
            r matches Some(i) ==> i < self.m@.len() && self.m@[i as int].0@ == t@
                && self@.contains_key(t@) && self@[t@] == peer_views(self.m@[i as int].1@),
            r is None ==> !self@.contains_key(t@),
    {
        let mut i: usize = 0;
        while i < self.m.len()
            invariant
                0 <= i <= self.m@.len(),
                self.keys_distinct(),
                forall|j: int| 0 <= j < i ==> self.m@[j].0@ != t@,
            decreases self.m@.len() - i,
        {
            if self.m[i].0.same(t) {
                proof {
                    self.lemma_at(i as int);
                }
                return Some(i);
            }
            i = i + 1;
        }
        None
    }

    /// An empty mesh.
    pub fn new() -> (r: Mesh)
        ensures
            r.wf(),
            r@ == Map::<Seq<char>, Seq<Seq<u8>>>::empty(),
    {
        let r = Mesh { m: Vec::new() };
        assert(r@ =~= Map::<Seq<char>, Seq<Seq<u8>>>::empty());
        r
    }

    /// Sets the peers of topic `k` to `v`, each peer once, and returns the
    /// peers it had before, if it was in the mesh.
    pub fn insert(&mut self, k: TopicHash, v: Vec<PeerId>) -> (r: Option<Vec<PeerId>>)
        requires
            old(self).wf(),
        ensures
            final(self).wf(),
            final(self)@ == old(self)@.insert(k@, dedup(peer_views(v@))),
            r is Some == old(self)@.contains_key(k@),
            r matches Some(o) ==> peer_views(o@) == old(self)@[k@],
    {
        let ghost pre = *self;
        let v2 = dedup_peers(v);
        proof {
            lemma_dedup(peer_views(v@));
        }
        match self.find(&k) {
            Some(i) => {
                let (_, old_ps) = self.m.remove(i);
                self.m.insert(i, (k, v2));
                assert(self.m@ =~= pre.m@.update(i as int, self.m@[i as int]));
                proof {
                    self.lemma_update(pre, i as int);
                }
                Some(old_ps)
            },
            None => {
                self.m.push((k, v2));
                assert(self.m@.subrange(0, pre.m@.len() as int) =~= pre.m@);
                proof {
                    self.lemma_push(pre);
                }
                None
            },
        }
    }

    proof fn lemma_update(&self, pre: Mesh, i: int)
        requires
            pre.wf(),
            0 <= i < pre.m@.len(),
            self.m@ == pre.m@.update(i, self.m@[i]),
            self.m@[i].0@ == pre.m@[i].0@,
            self.m@[i].1@.len() >= 0,
            peer_views(self.m@[i].1@).no_duplicates(),
        ensures
            self.wf(),
            self@ == pre@.insert(self.m@[i].0@, peer_views(self.m@[i].1@)),
    {
        let k = self.m@[i].0@;
        let pv = peer_views(self.m@[i].1@);
        let target = pre@.insert(k, pv);
        assert forall|a: int, b: int|
            0 <= a < self.m@.len() && 0 <= b < self.m@.len() && a != b implies
            self.m@[a].0@ != self.m@[b].0@ by {
            if a != i && b != i {
                assert(self.m@[a] == pre.m@[a]);
                assert(self.m@[b] == pre.m@[b]);
            } else if a == i {
                assert(self.m@[b] == pre.m@[b]);
            } else {
                assert(self.m@[a] == pre.m@[a]);
            }
        }
        assert(self.keys_distinct());
        self.lemma_at(i);
        assert forall|t: Seq<char>| self@.contains_key(t) <==> target.contains_key(t) by {
            if t != k {
                if self@.contains_key(t) {
                    let j = choose|j: int| 0 <= j < self.m@.len() && self.m@[j].0@ == t;
                    assert(j != i);
                    assert(pre.m@[j] == self.m@[j]);
                    pre.lemma_at(j);
                }
                if pre@.contains_key(t) {
                    let j = choose|j: int| 0 <= j < pre.m@.len() && pre.m@[j].0@ == t;
                    assert(j != i);
                    assert(pre.m@[j] == self.m@[j]);
                    self.lemma_at(j);
                }
            }
        }
        assert forall|t: Seq<char>| self@.contains_key(t) implies self@[t] == target[t] by {
            if t != k {
                let j = choose|j: int| 0 <= j < self.m@.len() && self.m@[j].0@ == t;
                assert(j != i);
                assert(pre.m@[j] == self.m@[j]);
                self.lemma_at(j);
                pre.lemma_at(j);
            }
        }
        assert(self@ =~= target);
    }

    proof fn lemma_push(&self, pre: Mesh)
        requires
            pre.wf(),
            self.m@.len() == pre.m@.len() + 1,
            self.m@.subrange(0, pre.m@.len() as int) == pre.m@,
            !pre@.contains_key(self.m@.last().0@),
            peer_views(self.m@.last().1@).no_duplicates(),
        ensures
            self.wf(),
            self@ == pre@.insert(self.m@.last().0@, peer_views(self.m@.last().1@)),
    {
        let n = pre.m@.len() as int;
        let k = self.m@[n].0@;
        assert forall|j: int| 0 <= j < n implies self.m@[j] == pre.m@[j] by {
            assert(self.m@.subrange(0, n)[j] == self.m@[j]);
        }
        assert forall|j: int| 0 <= j < n implies pre.m@[j].0@ != k by {
            pre.lemma_at(j);
        }
        assert(self.keys_distinct());
        self.lemma_at(n);
        assert forall|t: Seq<char>| #![auto]
            self@.contains_key(t) == pre@.insert(k, peer_views(self.m@[n].1@)).contains_key(t)
            && (self@.contains_key(t) ==> self@[t] == pre@.insert(k, peer_views(self.m@[n].1@))[t]) by {
            if t != k {
                if self@.contains_key(t) {
                    let j = choose|j: int| 0 <= j < self.m@.len() && self.m@[j].0@ == t;
                    self.lemma_at(j);
                    pre.lemma_at(j);
                }
                if pre@.contains_key(t) {
                    let j = choose|j: int| 0 <= j < pre.m@.len() && pre.m@[j].0@ == t;
                    self.lemma_at(j);
                    pre.lemma_at(j);
                }
            }
        }
        assert(self@ =~= pre@.insert(k, peer_views(self.m@[n].1@)));
    }

    proof fn lemma_remove(&self, pre: Mesh, i: int)
        requires
            pre.wf(),
            0 <= i < pre.m@.len(),
            self.m@ == pre.m@.remove(i),
        ensures
            self.wf(),
            self@ == pre@.remove(pre.m@[i].0@),
    {
        let k = pre.m@[i].0@;
        assert forall|a: int, b: int|
            0 <= a < self.m@.len() && 0 <= b < self.m@.len() && a != b implies
            self.m@[a].0@ != self.m@[b].0@ by {
            let a2 = if a < i { a } else { a + 1 };
            let b2 = if b < i { b } else { b + 1 };
            assert(self.m@[a] == pre.m@[a2]);
            assert(self.m@[b] == pre.m@[b2]);
        }
        assert(self.keys_distinct());
        let target = pre@.remove(k);
        assert forall|t: Seq<char>| self@.contains_key(t) <==> target.contains_key(t) by {
            if self@.contains_key(t) {
                let j = choose|j: int| 0 <= j < self.m@.len() && self.m@[j].0@ == t;
                let j2 = if j < i { j } else { j + 1 };
                assert(self.m@[j] == pre.m@[j2]);
                assert(j2 != i);
                pre.lemma_at(j2);
            }
            if pre@.contains_key(t) && t != k {
                let j = choose|j: int| 0 <= j < pre.m@.len() && pre.m@[j].0@ == t;
                assert(j != i);
                let j2 = if j < i { j } else { j - 1 };
                assert(self.m@[j2] == pre.m@[j]);
                self.lemma_at(j2);
            }
        }
        assert forall|t: Seq<char>| self@.contains_key(t) implies self@[t] == target[t] by {
            let j = choose|j: int| 0 <= j < self.m@.len() && self.m@[j].0@ == t;
            let j2 = if j < i { j } else { j + 1 };
            assert(self.m@[j] == pre.m@[j2]);
            assert(j2 != i);
            self.lemma_at(j);
            pre.lemma_at(j2);
        }
        assert(self@ =~= pre@.remove(k));
    }

    /// The peers of a topic, or `TopicNotInMesh` when the topic is not in
    /// the mesh.
    pub fn get_peers_from_topic(&self, th: &TopicHash) -> (r: Result<Vec<PeerId>, GError>)
        requires
            self.wf(),
        ensures
            r is Ok == self@.contains_key(th@),
            r matches Ok(ps) ==> peer_views(ps@) == self@[th@],
            r is Err ==> is_topic_not_in_mesh(r, th@),
    {
        match self.find(th) {
            Some(i) => Ok(copy_peers(&self.m[i].1)),
            None => Err(GError::TopicNotInMesh { t_hash: th.duplicate().into_string() }),
        }
    }

    /// The peer `p` if it is grafted to topic `th`; `TopicNotInMesh` when the
    /// topic is not in the mesh, `NotGraftedToTopic` when the peer is not in it.
    pub fn get_peer_from_topic(&self, th: TopicHash, p: PeerId) -> (r: Result<PeerId, GError>)
        requires
            self.wf(),
        ensures
            r is Ok == (self@.contains_key(th@) && self@[th@].contains(p@)),
            r matches Ok(q) ==> q@ == p@,
            !self@.contains_key(th@) ==> is_topic_not_in_mesh(r, th@),
            self@.contains_key(th@) && !self@[th@].contains(p@) ==> is_not_grafted(r, th@, p@),
    {
        match self.get_peers_from_topic(&th) {
            Ok(peers) => {
                if contains_peer(&peers, &p) {
                    Ok(p)
                } else {
                    Err(GError::NotGraftedToTopic { t_hash: th.into_string(), peer_id: p.to_base58() })
                }
            },
            Err(e) => Err(e),
        }
    }

    /// Grafts `p` to topic `th`. Nothing changes when the topic is not in the
    /// mesh; `AlreadyGrafted` when the peer is already in it.
    pub fn add_peer(&mut self, th: TopicHash, p: PeerId) -> (r: Result<(), GError>)
        requires
            old(self).wf(),
        ensures
            final(self).wf(),
            !old(self)@.contains_key(th@) ==> r is Ok && final(self)@ == old(self)@,
            old(self)@.contains_key(th@) && old(self)@[th@].contains(p@) ==> final(self)@ == old(self)@
                && is_already_grafted(r, th@, p@),
            old(self)@.contains_key(th@) && !old(self)@[th@].contains(p@) ==> r is Ok
                && final(self)@ == old(self)@.insert(th@, old(self)@[th@].push(p@)),
    {
        let ghost pre = *self;
        match self.find(&th) {
            None => Ok(()),
            Some(i) => {
                if contains_peer(&self.m[i].1, &p) {
                    Err(GError::AlreadyGrafted { t_hash: th.into_string(), peer_id: p.to_base58() })
                } else {
                    let (t, mut ps) = self.m.remove(i);
                    let ghost old_ps = ps@;
                    ps.push(p);
                    assert(peer_views(ps@) =~= peer_views(old_ps).push(p@));
                    self.m.insert(i, (t, ps));
                    assert(self.m@ =~= pre.m@.update(i as int, self.m@[i as int]));
                    proof {
                        let v = peer_views(old_ps);
                        assert forall|a: int, b: int| 0 <= a < b < v.len() + 1 implies
                            v.push(p@)[a] != v.push(p@)[b] by {
                            if b == v.len() {
                                assert(v[a] == v.push(p@)[a]);
                            }
                        }
                    }
                    proof {
                        self.lemma_update(pre, i as int);
                    }
                    Ok(())
                }
            },
        }
    }

    /// Removes topic `th` and returns its peers; `TopicNotInMesh` when it is
    /// not in the mesh.
    pub fn remove(&mut self, th: &TopicHash) -> (r: Result<Vec<PeerId>, GError>)
        requires
            old(self).wf(),
        ensures
            final(self).wf(),
            r is Ok == old(self)@.contains_key(th@),
            final(self)@ == old(self)@.remove(th@),
            r matches Ok(ps) ==> peer_views(ps@) == old(self)@[th@],
            r is Err ==> is_topic_not_in_mesh(r, th@),
    {
        let ghost pre = *self;
        match self.find(th) {
            Some(i) => {
                let (_, ps) = self.m.remove(i);
                proof {
                    self.lemma_remove(pre, i as int);
                }
                Ok(ps)
            },
            None => {
                assert(self@ =~= pre@.remove(th@));
                Err(GError::TopicNotInMesh { t_hash: th.duplicate().into_string() })
            },
        }
    }

    /// Prunes `p` from topic `th`; `TopicNotInMesh` when the topic is not in
    /// the mesh, `NotGraftedToTopic` when the peer is not in it.
    pub fn remove_peer_from_topic(&mut self, th: &TopicHash, p: PeerId) -> (r: Result<(), GError>)
        requires
            old(self).wf(),
        ensures
            final(self).wf(),
            r is Ok == (old(self)@.contains_key(th@) && old(self)@[th@].contains(p@)),
            r is Ok ==> final(self)@ == old(self)@.insert(th@, old(self)@[th@].remove_value(p@)),
            r is Err ==> final(self)@ == old(self)@,
            !old(self)@.contains_key(th@) ==> is_topic_not_in_mesh(r, th@),
            old(self)@.contains_key(th@) && !old(self)@[th@].contains(p@) ==> is_not_grafted(r, th@, p@),
    {
        let ghost pre = *self;
        match self.find(th) {
            None => Err(GError::TopicNotInMesh { t_hash: th.duplicate().into_string() }),
            Some(i) => {
                if !contains_peer(&self.m[i].1, &p) {
                    return Err(GError::NotGraftedToTopic { t_hash: th.duplicate().into_string(), peer_id: p.to_base58() });
                }
                let (t, mut ps) = self.m.remove(i);
                let ghost old_ps = ps@;
                remove_peer_value(&mut ps, &p);
                proof {
                    let v = peer_views(old_ps);
                    v.index_of_first_ensures(p@);
                    let k = v.index_of_first(p@).unwrap();
                    assert(v.remove_value(p@) == v.remove(k));
                    assert forall|a: int, b: int| 0 <= a < b < v.len() - 1 implies
                        v.remove(k)[a] != v.remove(k)[b] by {
                        let a2 = if a < k { a } else { a + 1 };
                        let b2 = if b < k { b } else { b + 1 };
                        assert(v.remove(k)[a] == v[a2]);
                        assert(v.remove(k)[b] == v[b2]);
                    }
                }
                self.m.insert(i, (t, ps));
                assert(self.m@ =~= pre.m@.update(i as int, self.m@[i as int]));
                proof {
                    self.lemma_update(pre, i as int);
                }
                Ok(())
            },
        }
    }

    /// Removes peer `p` from the peers of every topic.
    pub fn remove_peer_everywhere(&mut self, p: &PeerId)
        requires
            old(self).wf(),
        ensures
            final(self).wf(),
            final(self)@.dom() == old(self)@.dom(),
            forall|t: Seq<char>| #[trigger] final(self)@.contains_key(t) ==> final(self)@[t] == old(self)@[t].remove_value(p@),
    {
        let ghost pre = *self;
        let mut i: usize = 0;
        while i < self.m.len()
            invariant
                self.wf(),
                pre.wf(),
                0 <= i <= self.m@.len(),
                self.m@.len() == pre.m@.len(),
                forall|j: int| 0 <= j < pre.m@.len() ==> (#[trigger] self.m@[j]).0@ == pre.m@[j].0@,
                forall|j: int| 0 <= j < i ==> peer_views((#[trigger] self.m@[j]).1@) == peer_views(pre.m@[j].1@).remove_value(p@),
                forall|j: int| i <= j < pre.m@.len() ==> peer_views((#[trigger] self.m@[j]).1@) == peer_views(pre.m@[j].1@),
            decreases pre.m@.len() - i,
        {
            let ghost mid = *self;
            let (t, mut ps) = self.m.remove(i);
            let ghost old_ps = ps@;
            remove_peer_value(&mut ps, p);
            proof {
                mid.lemma_at(i as int);
                let v = peer_views(old_ps);
                assert(v.no_duplicates());
                v.index_of_first_ensures(p@);
                if v.contains(p@) {
                    let k = v.index_of_first(p@).unwrap();
                    assert forall|a: int, b: int| 0 <= a < b < v.len() - 1 implies
                        v.remove(k)[a] != v.remove(k)[b] by {
                        let a2 = if a < k { a } else { a + 1 };
                        let b2 = if b < k { b } else { b + 1 };
                        assert(v.remove(k)[a] == v[a2]);
                        assert(v.remove(k)[b] == v[b2]);
                    }
                }
            }
            self.m.insert(i, (t, ps));
            assert(self.m@ =~= mid.m@.update(i as int, self.m@[i as int]));
            proof {
                self.lemma_update(mid, i as int);
            }
            i = i + 1;
        }
        proof {
            assert forall|t: Seq<char>| self@.contains_key(t) <==> pre@.contains_key(t) by {
                if self@.contains_key(t) {
                    let j = choose|j: int| 0 <= j < self.m@.len() && self.m@[j].0@ == t;
                    pre.lemma_at(j);
                }
                if pre@.contains_key(t) {
                    let j = choose|j: int| 0 <= j < pre.m@.len() && pre.m@[j].0@ == t;
                    self.lemma_at(j);
                }
            }
            assert(self@.dom() =~= pre@.dom());
            assert forall|t: Seq<char>| #[trigger] self@.contains_key(t) implies self@[t] == pre@[t].remove_value(p@) by {
                let j = choose|j: int| 0 <= j < self.m@.len() && self.m@[j].0@ == t;
                self.lemma_at(j);
                pre.lemma_at(j);
            }
        }
    }

    /// The topics in the mesh, in the order they were added.
    pub fn topics(&self) -> (r: Vec<TopicHash>)
        requires
            self.wf(),
        ensures
            forall|t: Seq<char>| self@.contains_key(t) <==> exists|j: int| 0 <= j < r@.len() && r@[j]@ == t,
            r@.len() == self@.dom().len(),
            forall|a: int, b: int| 0 <= a < b < r@.len() ==> r@[a]@ != r@[b]@,
    {
        let mut r: Vec<TopicHash> = Vec::new();
        let mut i: usize = 0;
        while i < self.m.len()
            invariant
                0 <= i <= self.m@.len(),
                r@.len() == i,
                forall|j: int| 0 <= j < i ==> r@[j]@ == self.m@[j].0@,
            decreases self.m@.len() - i,
        {
            r.push(self.m[i].0.duplicate());
            i = i + 1;
        }
        proof {
            assert forall|t: Seq<char>| self@.contains_key(t) implies exists|j: int| 0 <= j < r@.len() && r@[j]@ == t by {
                let j = choose|j: int| 0 <= j < self.m@.len() && self.m@[j].0@ == t;
                assert(r@[j]@ == t);
            }
            self.lemma_dom_len();
        }
        r
    }

    proof fn lemma_dom_len(&self)
        requires
            self.keys_distinct(),
        ensures
            self@.dom().len() == self.m@.len(),
    {
        let keys = self.m@.map_values(|e: (TopicHash, Vec<PeerId>)| e.0@);
        assert(self@.dom() =~= keys.to_set()) by {
            assert forall|t: Seq<char>| self@.dom().contains(t) implies keys.to_set().contains(t) by {
                let j = choose|j: int| 0 <= j < self.m@.len() && self.m@[j].0@ == t;
                assert(keys[j] == t);
            }
            assert forall|t: Seq<char>| keys.to_set().contains(t) implies self@.dom().contains(t) by {
                let j = choose|j: int| 0 <= j < keys.len() && keys[j] == t;
                assert(self.m@[j].0@ == t);
            }
        }
        assert(keys.no_duplicates());
        keys.unique_seq_to_set();
    }
}

} // verus!
