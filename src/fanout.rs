use vstd::prelude::*;
use crate::constants::FANOUT_TTL_MS;
use crate::peers::{dedup, dedup_peers, lemma_dedup, peer_views, remove_peer_value, copy_peers};
use crate::types::{PeerId, TopicHash};

verus! {

/// A fanout entry as seen by contracts: topic, peers, time of last publish.
pub type FanoutView = (Seq<char>, Seq<Seq<u8>>, i64);

/// Whether an entry last published at `last` has expired at `now`.
pub open spec fn expired(last: i64, now: i64) -> bool {
    now - last > FANOUT_TTL_MS
}

/// The entries of `s` that have not expired at `now`, in order.
pub open spec fn fresh_entries(s: Seq<FanoutView>, now: i64) -> Seq<FanoutView>
    decreases s.len(),
{
    if s.len() == 0 {
        s
    } else if expired(s.last().2, now) {
        fresh_entries(s.drop_last(), now)
    } else {
        fresh_entries(s.drop_last(), now).push(s.last())
    }
}

/// `fresh_entries` keeps exactly the entries that have not expired.
pub proof fn lemma_fresh_entries(s: Seq<FanoutView>, now: i64)
    ensures
        forall|x: FanoutView| #[trigger] fresh_entries(s, now).contains(x) <==> (s.contains(x) && !expired(x.2, now)),
    decreases s.len(),
{
    if s.len() > 0 {
        let d = s.drop_last();
        lemma_fresh_entries(d, now);
        assert forall|x: FanoutView| fresh_entries(s, now).contains(x) <==> (s.contains(x) && !expired(x.2, now)) by {
            assert(fresh_entries(d, now).contains(x) <==> (d.contains(x) && !expired(x.2, now)));
            assert(s.contains(x) <==> (d.contains(x) || x == s.last())) by {
                if s.contains(x) {
                    let i = choose|i: int| 0 <= i < s.len() && s[i] == x;
                    if i < s.len() - 1 {
                        assert(d[i] == x);
                    }
                }
                if d.contains(x) {
                    let i = choose|i: int| 0 <= i < d.len() && d[i] == x;
                    assert(s[i] == x);
                }
                if x == s.last() {
                    assert(s[s.len() - 1] == x);
                }
            }
            if !expired(s.last().2, now) {
                let f = fresh_entries(d, now);
                assert(f.push(s.last()).contains(x) <==> (f.contains(x) || x == s.last())) by {
                    if f.push(s.last()).contains(x) {
                        let i = choose|i: int| 0 <= i < f.len() + 1 && f.push(s.last())[i] == x;
                        if i < f.len() {
                            assert(f[i] == x);
                        }
                    }
                    if f.contains(x) {
                        let i = choose|i: int| 0 <= i < f.len() && f[i] == x;
                        assert(f.push(s.last())[i] == x);
                    }
                    if x == s.last() {
                        assert(f.push(s.last())[f.len() as int] == x);
                    }
                }
            }
        }
    }
}

/// One topic that the local node publishes to without subscribing.
pub struct FanoutEntry {
    topic: TopicHash,
    peers: Vec<PeerId>,
    last_pub: i64,
}

/// The fanout table: for each topic published to without a subscription, the
/// peers that its messages go to, and when it was last published to.
pub struct Fanout {
    entries: Vec<FanoutEntry>,
}

impl View for Fanout {
    type V = Seq<FanoutView>;

    closed spec fn view(&self) -> Seq<FanoutView> {
        self.entries@.map_values(|e: FanoutEntry| (e.topic@, peer_views(e.peers@), e.last_pub))
    }
}

/// Whether some entry of `s` is for topic `t`.
pub open spec fn has_topic(s: Seq<FanoutView>, t: Seq<char>) -> bool {
    exists|i: int| 0 <= i < s.len() && s[i].0 == t
}

impl Fanout {
    /// No topic twice, no peer twice within an entry.
    pub open spec fn wf(&self) -> bool {
        &&& forall|i: int, j: int| 0 <= i < j < self@.len() ==> self@[i].0 != self@[j].0
        &&& forall|i: int| 0 <= i < self@.len() ==> (#[trigger] self@[i]).1.no_duplicates()
    }

    /// An empty table.
    pub fn new() -> (r: Fanout)
        ensures
            r.wf(),
            r@ == Seq::<FanoutView>::empty(),
    {
        let r = Fanout { entries: Vec::new() };
        assert(r@ =~= Seq::<FanoutView>::empty());
        r
    }

    fn find(&self, t: &TopicHash) -> (r: Option<usize>)
        ensures
            r matches Some(i) ==> i < self@.len() && self@[i as int].0 == t@,
            r is None ==> !has_topic(self@, t@),
    {
        let mut i: usize = 0;
        while i < self.entries.len()
            invariant
                0 <= i <= self@.len(),
                self@.len() == self.entries@.len(),
                forall|j: int| 0 <= j < i ==> self@[j].0 != t@,
            decreases self@.len() - i,
        {
            assert(self@[i as int].0 == self.entries@[i as int].topic@);
            if self.entries[i].topic.same(t) {
                return Some(i);
            }
            i = i + 1;
        }
        None
    }

    /// The number of entries.
    pub fn len(&self) -> (r: usize)
        ensures
            r == self@.len(),
    {
        self.entries.len()
    }

    /// Whether the table has an entry for `t`.
    pub fn contains(&self, t: &TopicHash) -> (r: bool)
        ensures
            r == has_topic(self@, t@),
    {
        self.find(t).is_some()
    }

    /// The peers of topic `t`, if it has an entry.
    pub fn peers_of(&self, t: &TopicHash) -> (r: Option<Vec<PeerId>>)
        requires
            self.wf(),
        ensures
            r is Some == has_topic(self@, t@),
            r matches Some(ps) ==> exists|i: int| 0 <= i < self@.len() && self@[i].0 == t@ && self@[i].1 == peer_views(ps@),
    {
        match self.find(t) {
            Some(i) => {
                let ps = copy_peers(&self.entries[i].peers);
                assert(self@[i as int].1 == peer_views(self.entries@[i as int].peers@));
                Some(ps)
            },
            None => None,
        }
    }

    /// The time topic `t` was last published to, if it has an entry.
    pub fn last_published(&self, t: &TopicHash) -> (r: Option<i64>)
        ensures
            r is Some == has_topic(self@, t@),
            r matches Some(x) ==> exists|i: int| 0 <= i < self@.len() && self@[i].0 == t@ && self@[i].2 == x,
    {
        match self.find(t) {
            Some(i) => Some(self.entries[i].last_pub),
            None => None,
        }
    }

    /// Sets the peers of topic `t`, each once, and its time of last publish;
    /// a topic without an entry gets one at the end.
    pub fn set(&mut self, t: &TopicHash, peers: Vec<PeerId>, now: i64)
        requires
            old(self).wf(),
        ensures
            final(self).wf(),
            has_topic(old(self)@, t@) ==> exists|i: int| 0 <= i < old(self)@.len() && old(self)@[i].0 == t@
                && final(self)@ == old(self)@.update(i, (t@, dedup(peer_views(peers@)), now)),
            !has_topic(old(self)@, t@) ==> final(self)@ == old(self)@.push((t@, dedup(peer_views(peers@)), now)),
            final(self)@.len() >= old(self)@.len(),
            forall|k: int| 0 <= k < old(self)@.len() ==> (#[trigger] final(self)@[k]).0 == old(self)@[k].0,
            has_topic(final(self)@, t@),
    {
        let ghost pre = self@;
        let ps = dedup_peers(peers);
        proof {
            lemma_dedup(peer_views(peers@));
        }
        let e = FanoutEntry { topic: t.duplicate(), peers: ps, last_pub: now };
        match self.find(t) {
            Some(i) => {
                self.entries.remove(i);
                self.entries.insert(i, e);
                assert(self@ =~= pre.update(i as int, (t@, dedup(peer_views(peers@)), now)));
                assert(self@[i as int].0 == t@);
                assert forall|a: int, b: int| 0 <= a < b < self@.len() implies self@[a].0 != self@[b].0 by {
                    if a != i as int && b != i as int {
                        assert(self@[a] == pre[a] && self@[b] == pre[b]);
                    } else if a == i as int {
                        assert(self@[b] == pre[b]);
                    } else {
                        assert(self@[a] == pre[a]);
                    }
                }
                assert forall|a: int| 0 <= a < self@.len() implies (#[trigger] self@[a]).1.no_duplicates() by {
                    if a != i as int {
                        assert(self@[a] == pre[a]);
                    }
                }
            },
            None => {
                self.entries.push(e);
                assert(self@ =~= pre.push((t@, dedup(peer_views(peers@)), now)));
                assert(self@[pre.len() as int].0 == t@);
                assert forall|a: int, b: int| 0 <= a < b < self@.len() implies self@[a].0 != self@[b].0 by {
                    assert(self@[a] == pre[a]);
                    if b < pre.len() {
                        assert(self@[b] == pre[b]);
                    }
                }
                assert forall|a: int| 0 <= a < self@.len() implies (#[trigger] self@[a]).1.no_duplicates() by {
                    if a < pre.len() {
                        assert(self@[a] == pre[a]);
                    }
                }
            },
        }
    }

    /// Records a publish to topic `t` at `now`; false when `t` has no entry.
    pub fn touch(&mut self, t: &TopicHash, now: i64) -> (r: bool)
        requires
            old(self).wf(),
        ensures
            final(self).wf(),
            r == has_topic(old(self)@, t@),
            r ==> exists|i: int| 0 <= i < old(self)@.len() && old(self)@[i].0 == t@
                && final(self)@ == old(self)@.update(i, (old(self)@[i].0, old(self)@[i].1, now)),
            !r ==> final(self)@ == old(self)@,
            final(self)@.len() == old(self)@.len(),
            forall|k: int| 0 <= k < old(self)@.len() ==> (#[trigger] final(self)@[k]).0 == old(self)@[k].0,
    {
        let ghost pre = self@;
        match self.find(t) {
            Some(i) => {
                let mut e = self.entries.remove(i);
                e.last_pub = now;
                self.entries.insert(i, e);
                assert(self@ =~= pre.update(i as int, (pre[i as int].0, pre[i as int].1, now)));
                assert forall|a: int, b: int| 0 <= a < b < self@.len() implies self@[a].0 != self@[b].0 by {
                    assert(self@[a].0 == pre[a].0 && self@[b].0 == pre[b].0);
                }
                assert forall|a: int| 0 <= a < self@.len() implies (#[trigger] self@[a]).1.no_duplicates() by {
                    assert(self@[a].1 == pre[a].1);
                }
                true
            },
            None => false,
        }
    }

    /// Drops every entry that has expired at `now`.
    pub fn sweep(&mut self, now: i64)
        requires
            old(self).wf(),
        ensures
            final(self).wf(),
            final(self)@ == fresh_entries(old(self)@, now),
            forall|x: FanoutView| final(self)@.contains(x) <==> (old(self)@.contains(x) && !expired(x.2, now)),
    {
        let ghost pre = self@;
        let mut kept: Vec<FanoutEntry> = Vec::new();
        let mut old_entries: Vec<FanoutEntry> = Vec::new();
        std::mem::swap(&mut old_entries, &mut self.entries);
        let ghost src = old_entries@;
        assert(src.map_values(|e: FanoutEntry| (e.topic@, peer_views(e.peers@), e.last_pub)) == pre);
        let mut k: usize = 0;
        let n = old_entries.len();
        let mut rest = old_entries;
        while k < n
            invariant
                0 <= k <= n,
                n == src.len(),
                pre.len() == n,
                rest@ == src.subrange(k as int, n as int),
                forall|j: int| 0 <= j < n ==> #[trigger] pre[j] == (src[j].topic@, peer_views(src[j].peers@), src[j].last_pub),
                kept@.map_values(|e: FanoutEntry| (e.topic@, peer_views(e.peers@), e.last_pub)) == fresh_entries(pre.subrange(0, k as int), now),
            decreases n - k,
        {
            let e = rest.remove(0);
            assert(e == src[k as int]);
            let ghost sub = pre.subrange(0, k as int + 1);
            assert(sub.drop_last() =~= pre.subrange(0, k as int));
            assert(sub.last() == pre[k as int]);
            let ghost before = kept@;
            if !((now as i128) - (e.last_pub as i128) > FANOUT_TTL_MS as i128) {
                kept.push(e);
                assert(kept@.map_values(|e: FanoutEntry| (e.topic@, peer_views(e.peers@), e.last_pub)) =~= before.map_values(
                    |e: FanoutEntry| (e.topic@, peer_views(e.peers@), e.last_pub),
                ).push(sub.last()));
            }
            assert(rest@ =~= src.subrange(k as int + 1, n as int));
            k = k + 1;
        }
        assert(pre.subrange(0, n as int) =~= pre);
        self.entries = kept;
        proof {
            lemma_fresh_entries(pre, now);
            let f = self@;
            assert forall|a: int, b: int| 0 <= a < b < f.len() implies f[a].0 != f[b].0 by {
                lemma_fresh_order(pre, now, a, b);
            }
            assert forall|a: int| 0 <= a < f.len() implies (#[trigger] f[a]).1.no_duplicates() by {
                lemma_fresh_index(pre, now, a);
                let j = choose|j: int| 0 <= j < pre.len() && pre[j] == f[a];
                assert(pre[j].1.no_duplicates());
            }
        }
    }

    /// Removes peer `p` from every entry.
    pub fn remove_peer(&mut self, p: &PeerId)
        requires
            old(self).wf(),
        ensures
            final(self).wf(),
            final(self)@.len() == old(self)@.len(),
            forall|i: int| 0 <= i < old(self)@.len() ==> (#[trigger] final(self)@[i]).0 == old(self)@[i].0
                && final(self)@[i].2 == old(self)@[i].2
                && final(self)@[i].1 == old(self)@[i].1.remove_value(p@),
    {
        let ghost pre = self@;
        let mut i: usize = 0;
        while i < self.entries.len()
            invariant
                0 <= i <= self@.len(),
                self@.len() == pre.len() == self.entries@.len(),
                forall|j: int| 0 <= j < pre.len() ==> (#[trigger] self@[j]).0 == pre[j].0 && self@[j].2 == pre[j].2,
                forall|j: int| 0 <= j < i ==> (#[trigger] self@[j]).1 == pre[j].1.remove_value(p@),
                forall|j: int| i <= j < pre.len() ==> (#[trigger] self@[j]).1 == pre[j].1,
            decreases pre.len() - i,
        {
            let ghost mid = self@;
            let ghost mid_entries = self.entries@;
            let mut e = self.entries.remove(i);
            let ghost e1 = e;
            assert(e1 == mid_entries[i as int]);
            remove_peer_value(&mut e.peers, p);
            let ghost e2 = e;
            assert(e2.topic == e1.topic && e2.last_pub == e1.last_pub);
            assert(peer_views(e2.peers@) == peer_views(e1.peers@).remove_value(p@));
            self.entries.insert(i, e);
            assert(self.entries@ =~= mid_entries.update(i as int, e2));
            assert forall|j: int| 0 <= j < pre.len() && j != i implies #[trigger] self@[j] == mid[j] by {
                assert(self.entries@[j] == mid_entries[j]);
            }
            assert(self@[i as int] == (e2.topic@, peer_views(e2.peers@), e2.last_pub));
            assert(mid[i as int] == (e1.topic@, peer_views(e1.peers@), e1.last_pub));
            i = i + 1;
        }
        proof {
            assert forall|a: int| 0 <= a < self@.len() implies (#[trigger] self@[a]).1.no_duplicates() by {
                let v = pre[a].1;
                assert(v.no_duplicates());
                v.index_of_first_ensures(p@);
                match v.index_of_first(p@) {
                    Some(k) => {
                        assert forall|x: int, y: int| 0 <= x < y < v.len() - 1 implies v.remove(k)[x] != v.remove(k)[y] by {
                            let x2 = if x < k { x } else { x + 1 };
                            let y2 = if y < k { y } else { y + 1 };
                            assert(v.remove(k)[x] == v[x2] && v.remove(k)[y] == v[y2]);
                        }
                    },
                    None => {},
                }
            }
        }
    }

    /// The topics that have an entry, in table order.
    pub fn topics(&self) -> (r: Vec<TopicHash>)
        ensures
            r@.len() == self@.len(),
            forall|i: int| 0 <= i < r@.len() ==> (#[trigger] r@[i])@ == self@[i].0,
    {
        let mut r: Vec<TopicHash> = Vec::new();
        let mut i: usize = 0;
        while i < self.entries.len()
            invariant
                0 <= i <= self@.len(),
                self@.len() == self.entries@.len(),
                r@.len() == i,
                forall|j: int| 0 <= j < i ==> (#[trigger] r@[j])@ == self@[j].0,
            decreases self@.len() - i,
        {
            assert(self@[i as int].0 == self.entries@[i as int].topic@);
            r.push(self.entries[i].topic.duplicate());
            i = i + 1;
        }
        r
    }
}

/// Entries kept by `fresh_entries` appear in the order of the input, so two
/// of them stand at distinct positions of the input.
proof fn lemma_fresh_order(s: Seq<FanoutView>, now: i64, a: int, b: int)
    requires
        0 <= a < b < fresh_entries(s, now).len(),
    ensures
        exists|x: int, y: int| 0 <= x < y < s.len() && s[x] == fresh_entries(s, now)[a] && s[y] == fresh_entries(s, now)[b],
    decreases s.len(),
{
    let d = s.drop_last();
    let f = fresh_entries(d, now);
    if expired(s.last().2, now) {
        lemma_fresh_order(d, now, a, b);
        let (x, y) = choose|x: int, y: int| 0 <= x < y < d.len() && d[x] == f[a] && d[y] == f[b];
        assert(s[x] == d[x] && s[y] == d[y]);
    } else if b < f.len() {
        lemma_fresh_order(d, now, a, b);
        let (x, y) = choose|x: int, y: int| 0 <= x < y < d.len() && d[x] == f[a] && d[y] == f[b];
        assert(s[x] == d[x] && s[y] == d[y]);
    } else {
        lemma_fresh_index(d, now, a);
        let x = choose|x: int| 0 <= x < d.len() && d[x] == f[a];
        assert(s[x] == d[x]);
        assert(s[s.len() - 1] == fresh_entries(s, now)[b]);
    }
}

proof fn lemma_fresh_index(s: Seq<FanoutView>, now: i64, a: int)
    requires
        0 <= a < fresh_entries(s, now).len(),
    ensures
        exists|x: int| 0 <= x < s.len() && s[x] == fresh_entries(s, now)[a],
{
    lemma_fresh_entries(s, now);
    let f = fresh_entries(s, now);
    assert(f.contains(f[a]));
    assert(s.contains(f[a]));
}

/// After a sweep at `now`, no entry of the table has gone longer than the
/// fanout lifetime without a publish.
pub proof fn lemma_sweep_drops_expired(s: Seq<FanoutView>, now: i64, t: Seq<char>)
    requires
        forall|i: int| 0 <= i < s.len() && s[i].0 == t ==> expired(s[i].2, now),
    ensures
        !has_topic(fresh_entries(s, now), t),
{
    lemma_fresh_entries(s, now);
    let f = fresh_entries(s, now);
    if has_topic(f, t) {
        let i = choose|i: int| 0 <= i < f.len() && f[i].0 == t;
        lemma_fresh_index(s, now, i);
        let j = choose|j: int| 0 <= j < s.len() && s[j] == f[i];
        assert(expired(s[j].2, now));
        assert(f.contains(f[i]));
    }
}

} // verus!
