use vstd::prelude::*;
use crate::peers::peer_views;
use crate::types::{PeerId, TopicHash};

verus! {

/// The subscriptions of `s` that do not belong to peer `p`, in order.
pub open spec fn drop_peer(s: Seq<(Seq<u8>, Seq<char>)>, p: Seq<u8>) -> Seq<(Seq<u8>, Seq<char>)>
    decreases s.len(),
{
    if s.len() == 0 {
        s
    } else if s.last().0 == p {
        drop_peer(s.drop_last(), p)
    } else {
        drop_peer(s.drop_last(), p).push(s.last())
    }
}

/// The peers that hold a subscription to topic `t` in `s`, in order.
pub open spec fn subscribers_of(s: Seq<(Seq<u8>, Seq<char>)>, t: Seq<char>) -> Seq<Seq<u8>>
    decreases s.len(),
{
    if s.len() == 0 {
        Seq::empty()
    } else if s.last().1 == t {
        subscribers_of(s.drop_last(), t).push(s.last().0)
    } else {
        subscribers_of(s.drop_last(), t)
    }
}

/// `drop_peer` keeps exactly the subscriptions of the other peers.
pub proof fn lemma_drop_peer(s: Seq<(Seq<u8>, Seq<char>)>, p: Seq<u8>)
    ensures
        forall|x: (Seq<u8>, Seq<char>)| drop_peer(s, p).contains(x) <==> (s.contains(x) && x.0 != p),
        s.no_duplicates() ==> drop_peer(s, p).no_duplicates(),
    decreases s.len(),
{
    if s.len() > 0 {
        let d = s.drop_last();
        lemma_drop_peer(d, p);
        lemma_contains_last(s);
        if s.last().0 != p {
            lemma_contains_push(drop_peer(d, p), s.last());
            if s.no_duplicates() {
                assert(d.no_duplicates()) by {
                    assert forall|a: int, b: int| 0 <= a < b < d.len() implies d[a] != d[b] by {
                        assert(d[a] == s[a] && d[b] == s[b]);
                    }
                }
                if d.contains(s.last()) {
                    let k = choose|k: int| 0 <= k < d.len() && d[k] == s.last();
                    assert(s[k] == s[s.len() - 1]);
                }
                lemma_push_unique(drop_peer(d, p), s.last());
            }
        } else if s.no_duplicates() {
            assert forall|a: int, b: int| 0 <= a < b < d.len() implies d[a] != d[b] by {
                assert(d[a] == s[a] && d[b] == s[b]);
            }
        }
    }
}

/// `subscribers_of` lists exactly the peers subscribed to the topic, and
/// each once when no subscription is listed twice.
pub proof fn lemma_subscribers_of(s: Seq<(Seq<u8>, Seq<char>)>, t: Seq<char>)
    ensures
        forall|p: Seq<u8>| subscribers_of(s, t).contains(p) <==> s.contains((p, t)),
        s.no_duplicates() ==> subscribers_of(s, t).no_duplicates(),
    decreases s.len(),
{
    if s.len() > 0 {
        let d = s.drop_last();
        lemma_subscribers_of(d, t);
        lemma_contains_last(s);
        assert forall|p: Seq<u8>| subscribers_of(s, t).contains(p) <==> s.contains((p, t)) by {
            assert(s.contains((p, t)) <==> (d.contains((p, t)) || (p, t) == s.last()));
            assert(subscribers_of(d, t).contains(p) <==> d.contains((p, t)));
            if s.last().1 == t {
                lemma_contains_push(subscribers_of(d, t), s.last().0);
                if p == s.last().0 {
                    assert((p, t) == s.last());
                }
            }
        }
        if s.last().1 == t {
            lemma_contains_push(subscribers_of(d, t), s.last().0);
            if s.no_duplicates() {
                assert(d.no_duplicates()) by {
                    assert forall|a: int, b: int| 0 <= a < b < d.len() implies d[a] != d[b] by {
                        assert(d[a] == s[a] && d[b] == s[b]);
                    }
                }
                if d.contains(s.last()) {
                    let k = choose|k: int| 0 <= k < d.len() && d[k] == s.last();
                    assert(s[k] == s[s.len() - 1]);
                }
                lemma_push_unique(subscribers_of(d, t), s.last().0);
            }
        } else if s.no_duplicates() {
            assert forall|a: int, b: int| 0 <= a < b < d.len() implies d[a] != d[b] by {
                assert(d[a] == s[a] && d[b] == s[b]);
            }
        }
    }
}

proof fn lemma_contains_last<A>(s: Seq<A>)
    requires
        s.len() > 0,
    ensures
        forall|x: A| s.contains(x) <==> (s.drop_last().contains(x) || x == s.last()),
{
    assert forall|x: A| s.contains(x) <==> (s.drop_last().contains(x) || x == s.last()) by {
        if s.contains(x) {
            let i = choose|i: int| 0 <= i < s.len() && s[i] == x;
            if i < s.len() - 1 {
                assert(s.drop_last()[i] == x);
            }
        }
        if s.drop_last().contains(x) {
            let i = choose|i: int| 0 <= i < s.drop_last().len() && s.drop_last()[i] == x;
            assert(s[i] == x);
        }
        if x == s.last() {
            assert(s[s.len() - 1] == x);
        }
    }
}

proof fn lemma_contains_push<A>(s: Seq<A>, e: A)
    ensures
        forall|x: A| s.push(e).contains(x) <==> (s.contains(x) || x == e),
{
    lemma_contains_last(s.push(e));
    assert(s.push(e).drop_last() =~= s);
}

proof fn lemma_push_unique<A>(s: Seq<A>, e: A)
    requires
        s.no_duplicates(),
        !s.contains(e),
    ensures
        s.push(e).no_duplicates(),
{
    assert forall|a: int, b: int| 0 <= a < b < s.len() + 1 implies s.push(e)[a] != s.push(e)[b] by {
        if b == s.len() {
            assert(s.push(e)[a] == s[a]);
        }
    }
}

/// The topics that each known remote peer has announced.
pub struct PeerView {
    subs: Vec<(PeerId, TopicHash)>,
}

impl View for PeerView {
    /// The announced subscriptions, as (peer, topic), in the order received.
    type V = Seq<(Seq<u8>, Seq<char>)>;

    closed spec fn view(&self) -> Seq<(Seq<u8>, Seq<char>)> {
        self.subs@.map_values(|e: (PeerId, TopicHash)| (e.0@, e.1@))
    }
}

impl PeerView {
    /// No subscription is listed twice.
    pub open spec fn wf(&self) -> bool {
        self@.no_duplicates()
    }

    /// An empty view.
    pub fn new() -> (r: PeerView)
        ensures
            r.wf(),
            r@ == Seq::<(Seq<u8>, Seq<char>)>::empty(),
    {
        let r = PeerView { subs: Vec::new() };
        assert(r@ =~= Seq::<(Seq<u8>, Seq<char>)>::empty());
        r
    }

    fn position(&self, p: &PeerId, t: &TopicHash) -> (r: Option<usize>)
        ensures
            r matches Some(i) ==> i < self@.len() && self@[i as int] == (p@, t@),
            r is None ==> !self@.contains((p@, t@)),
    {
        let mut i: usize = 0;
        while i < self.subs.len()
            invariant
                0 <= i <= self@.len(),
                self@.len() == self.subs@.len(),
                forall|j: int| 0 <= j < i ==> self@[j] != (p@, t@),
            decreases self@.len() - i,
        {
            assert(self@[i as int] == (self.subs@[i as int].0@, self.subs@[i as int].1@));
            if self.subs[i].0.same(p) && self.subs[i].1.same(t) {
                return Some(i);
            }
            i = i + 1;
        }
        None
    }

    /// Whether peer `p` has announced topic `t`.
    pub fn is_subscribed(&self, p: &PeerId, t: &TopicHash) -> (r: bool)
        ensures
            r == self@.contains((p@, t@)),
    {
        self.position(p, t).is_some()
    }

    /// Records that `p` subscribed to `t`; true when it was not yet known.
    pub fn subscribe(&mut self, p: &PeerId, t: &TopicHash) -> (r: bool)
        requires
            old(self).wf(),
        ensures
            final(self).wf(),
            r == !old(self)@.contains((p@, t@)),
            r ==> final(self)@ == old(self)@.push((p@, t@)),
            !r ==> final(self)@ == old(self)@,
            final(self)@.contains((p@, t@)),
            forall|x: (Seq<u8>, Seq<char>)| #[trigger] final(self)@.contains(x) <==> (old(self)@.contains(x) || x == (p@, t@)),
    {
        let ghost pre = self@;
        if self.position(p, t).is_some() {
            return false;
        }
        self.subs.push((p.duplicate(), t.duplicate()));
        assert(self@ =~= pre.push((p@, t@)));
        assert(self@[pre.len() as int] == (p@, t@));
        proof {
            lemma_push_unique(pre, (p@, t@));
            lemma_contains_push(pre, (p@, t@));
        }
        true
    }

    /// Records that `p` unsubscribed from `t`; true when it was known.
    pub fn unsubscribe(&mut self, p: &PeerId, t: &TopicHash) -> (r: bool)
        requires
            old(self).wf(),
        ensures
            final(self).wf(),
            r == old(self)@.contains((p@, t@)),
            !final(self)@.contains((p@, t@)),
            forall|x: (Seq<u8>, Seq<char>)| x != (p@, t@) ==> (final(self)@.contains(x) <==> old(self)@.contains(x)),
    {
        let ghost pre = self@;
        match self.position(p, t) {
            None => false,
            Some(i) => {
                self.subs.remove(i);
                assert(self@ =~= pre.remove(i as int));
                assert forall|x: (Seq<u8>, Seq<char>)| #![auto] self@.contains(x) <==> (pre.contains(x) && x != (p@, t@)) by {
                    if self@.contains(x) {
                        let k = choose|k: int| 0 <= k < self@.len() && self@[k] == x;
                        let k2 = if k < i { k } else { k + 1 };
                        assert(pre[k2] == x);
                        assert(k2 != i);
                    }
                    if pre.contains(x) && x != (p@, t@) {
                        let k = choose|k: int| 0 <= k < pre.len() && pre[k] == x;
                        assert(k != i);
                        let k2 = if k < i { k } else { k - 1 };
                        assert(self@[k2] == x);
                    }
                }
                assert forall|a: int, b: int| 0 <= a < b < self@.len() implies self@[a] != self@[b] by {
                    let a2 = if a < i { a } else { a + 1 };
                    let b2 = if b < i { b } else { b + 1 };
                    assert(self@[a] == pre[a2] && self@[b] == pre[b2]);
                }
                true
            },
        }
    }

    /// The peers subscribed to topic `t`, in the order their subscriptions
    /// were received; each once.
    pub fn subscribers(&self, t: &TopicHash) -> (r: Vec<PeerId>)
        requires
            self.wf(),
        ensures
            peer_views(r@) == subscribers_of(self@, t@),
            peer_views(r@).no_duplicates(),
            forall|p: Seq<u8>| peer_views(r@).contains(p) <==> self@.contains((p, t@)),
    {
        let mut r: Vec<PeerId> = Vec::new();
        let mut i: usize = 0;
        while i < self.subs.len()
            invariant
                0 <= i <= self@.len(),
                self@.len() == self.subs@.len(),
                peer_views(r@) == subscribers_of(self@.subrange(0, i as int), t@),
            decreases self@.len() - i,
        {
            let ghost pre = self@.subrange(0, i as int + 1);
            assert(pre.drop_last() =~= self@.subrange(0, i as int));
            assert(pre.last() == (self.subs@[i as int].0@, self.subs@[i as int].1@));
            if self.subs[i].1.same(t) {
                let ghost before = r@;
                r.push(self.subs[i].0.duplicate());
                assert(peer_views(r@) =~= peer_views(before).push(self.subs@[i as int].0@));
            }
            i = i + 1;
        }
        assert(self@.subrange(0, i as int) =~= self@);
        proof {
            lemma_subscribers_of(self@, t@);
        }
        r
    }

    /// Forgets every subscription of peer `p`.
    pub fn remove_peer(&mut self, p: &PeerId)
        requires
            old(self).wf(),
        ensures
            final(self).wf(),
            final(self)@ == drop_peer(old(self)@, p@),
            forall|x: (Seq<u8>, Seq<char>)| final(self)@.contains(x) <==> (old(self)@.contains(x) && x.0 != p@),
    {
        let ghost pre = self@;
        let mut kept: Vec<(PeerId, TopicHash)> = Vec::new();
        let mut i: usize = 0;
        while i < self.subs.len()
            invariant
                0 <= i <= pre.len(),
                self@ == pre,
                self@.len() == self.subs@.len(),
                kept@.map_values(|e: (PeerId, TopicHash)| (e.0@, e.1@)) == drop_peer(pre.subrange(0, i as int), p@),
            decreases pre.len() - i,
        {
            let ghost sub = pre.subrange(0, i as int + 1);
            assert(sub.drop_last() =~= pre.subrange(0, i as int));
            assert(sub.last() == (self.subs@[i as int].0@, self.subs@[i as int].1@));
            if !self.subs[i].0.same(p) {
                let ghost before = kept@;
                kept.push((self.subs[i].0.duplicate(), self.subs[i].1.duplicate()));
                assert(kept@.map_values(|e: (PeerId, TopicHash)| (e.0@, e.1@)) =~= before.map_values(
                    |e: (PeerId, TopicHash)| (e.0@, e.1@),
                ).push(sub.last()));
            }
            i = i + 1;
        }
        assert(pre.subrange(0, i as int) =~= pre);
        self.subs = kept;
        proof {
            lemma_drop_peer(pre, p@);
        }
    }
}

} // verus!
