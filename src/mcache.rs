use vstd::prelude::*;
use crate::constants::{HISTORY_GOSSIP, MSG_HIST_LEN};
use crate::message::{topic_views, GMessage, MsgRep};
use crate::types::TopicHash;

verus! {

/// Whether the reference `rep` (a hash, or an id) names message `m`.
pub open spec fn refers_to(rep: (bool, Seq<char>), m: GMessage) -> bool {
    if rep.0 {
        m.hash@ == rep.1
    } else {
        match m.id {
            Some(i) => i@ == rep.1,
            None => false,
        }
    }
}

/// The hash references of the messages of one slot that belong to `topic`,
/// in insertion order.
pub open spec fn slot_ids(s: Seq<GMessage>, topic: Seq<char>) -> Seq<(bool, Seq<char>)>
    decreases s.len(),
{
    if s.len() == 0 {
        Seq::empty()
    } else if topic_views(s.last().topics@).contains(topic) {
        slot_ids(s.drop_last(), topic).push((true, s.last().hash@))
    } else {
        slot_ids(s.drop_last(), topic)
    }
}

/// The references of the messages of `topic` in the `k` newest slots, the
/// older slots first.
pub open spec fn window_ids(slots: Seq<Seq<GMessage>>, k: int, topic: Seq<char>) -> Seq<(bool, Seq<char>)>
    decreases k,
{
    if k <= 0 {
        Seq::empty()
    } else {
        slot_ids(slots[k - 1], topic) + window_ids(slots, k - 1, topic)
    }
}

/// The slots after one heartbeat: a new empty slot in front, and the oldest
/// dropped once there are more than the history length.
pub open spec fn shifted(slots: Seq<Seq<GMessage>>) -> Seq<Seq<GMessage>> {
    let s = seq![Seq::<GMessage>::empty()] + slots;
    if s.len() > MSG_HIST_LEN {
        s.drop_last()
    } else {
        s
    }
}

/// The sliding window of recently seen messages: one slot per heartbeat,
/// the newest slot first.
pub struct MCache {
    slots: Vec<Vec<GMessage>>,
}

impl View for MCache {
    type V = Seq<Seq<GMessage>>;

    closed spec fn view(&self) -> Seq<Seq<GMessage>> {
        self.slots@.map_values(|v: Vec<GMessage>| v@)
    }
}

impl MCache {
    /// Whether some slot holds a message with hash `h`.
    pub open spec fn holds_hash(&self, h: Seq<char>) -> bool {
        exists|i: int, j: int| 0 <= i < self@.len() && 0 <= j < self@[i].len() && (#[trigger] self@[i][j]).hash@ == h
    }

    /// Whether some slot holds a message that `rep` names.
    pub open spec fn holds(&self, rep: (bool, Seq<char>)) -> bool {
        exists|i: int, j: int| 0 <= i < self@.len() && 0 <= j < self@[i].len() && refers_to(rep, #[trigger] self@[i][j])
    }

    /// Between one and the history length of slots, and no hash held twice.
    pub open spec fn wf(&self) -> bool {
        &&& 1 <= self@.len() <= MSG_HIST_LEN
        &&& forall|i1: int, j1: int, i2: int, j2: int|
            0 <= i1 < self@.len() && 0 <= j1 < self@[i1].len() && 0 <= i2 < self@.len() && 0 <= j2
                < self@[i2].len() && (i1 != i2 || j1 != j2) ==> (#[trigger] self@[i1][j1]).hash@ != (
            #[trigger] self@[i2][j2]).hash@
    }

    /// A cache with one empty slot.
    pub fn new() -> (r: MCache)
        ensures
            r.wf(),
            r@ == seq![Seq::<GMessage>::empty()],
    {
        let mut slots: Vec<Vec<GMessage>> = Vec::new();
        slots.push(Vec::new());
        let r = MCache { slots };
        assert(r@ =~= seq![Seq::<GMessage>::empty()]);
        r
    }

    /// The position of the message that `rep` names, if any.
    fn locate(&self, rep: &MsgRep) -> (r: Option<(usize, usize)>)
        ensures
            r matches Some((i, j)) ==> i < self@.len() && j < self@[i as int].len() && refers_to(
                rep@,
                self@[i as int][j as int],
            ),
            r is None ==> !self.holds(rep@),
    {
        let mut i: usize = 0;
        while i < self.slots.len()
            invariant
                0 <= i <= self@.len(),
                self@.len() == self.slots@.len(),
                forall|a: int, b: int| 0 <= a < i && 0 <= b < self@[a].len() ==> !refers_to(rep@, #[trigger] self@[a][b]),
            decreases self@.len() - i,
        {
            let slot = &self.slots[i];
            assert(slot@ == self@[i as int]);
            let mut j: usize = 0;
            while j < slot.len()
                invariant
                    0 <= j <= slot@.len(),
                    i < self@.len(),
                    slot@ == self@[i as int],
                    forall|b: int| 0 <= b < j ==> !refers_to(rep@, #[trigger] slot@[b]),
                decreases slot@.len() - j,
            {
                let m = &slot[j];
                let found = match rep {
                    MsgRep::Hash(h) => m.hash.same(h),
                    MsgRep::Id(id) => match &m.id {
                        Some(x) => x.same(id),
                        None => false,
                    },
                };
                if found {
                    return Some((i, j));
                }
                j = j + 1;
            }
            i = i + 1;
        }
        None
    }

    /// Whether some slot holds the message that `rep` names.
    pub fn contains(&self, rep: &MsgRep) -> (r: bool)
        ensures
            r == self.holds(rep@),
    {
        self.locate(rep).is_some()
    }

    /// The message that `rep` names, if a slot still holds it.
    pub fn get(&self, rep: &MsgRep) -> (r: Option<&GMessage>)
        ensures
            r is Some == self.holds(rep@),
            r matches Some(m) ==> refers_to(rep@, *m) && exists|i: int, j: int|
                0 <= i < self@.len() && 0 <= j < self@[i].len() && self@[i][j] == *m,
    {
        match self.locate(rep) {
            Some((i, j)) => {
                let slot = &self.slots[i];
                assert(slot@ == self@[i as int]);
                Some(&slot[j])
            },
            None => None,
        }
    }

    /// Adds `msg` to the newest slot unless a message with its hash is held;
    /// true when it was added.
    pub fn put(&mut self, msg: GMessage) -> (r: bool)
        requires
            old(self).wf(),
        ensures
            final(self).wf(),
            r == !old(self).holds_hash(msg.hash@),
            r ==> final(self)@ == old(self)@.update(0, old(self)@[0].push(msg)),
            !r ==> final(self)@ == old(self)@,
    {
        let ghost pre = self@;
        let probe = MsgRep::Hash(msg.hash.duplicate());
        if self.contains(&probe) {
            return false;
        }
        let mut s0 = self.slots.remove(0);
        s0.push(msg);
        self.slots.insert(0, s0);
        assert(self@ =~= pre.update(0, pre[0].push(msg)));
        assert forall|i1: int, j1: int, i2: int, j2: int|
            0 <= i1 < self@.len() && 0 <= j1 < self@[i1].len() && 0 <= i2 < self@.len() && 0 <= j2
                < self@[i2].len() && (i1 != i2 || j1 != j2) implies (#[trigger] self@[i1][j1]).hash@ != (
            #[trigger] self@[i2][j2]).hash@ by {
            let n = pre[0].len() as int;
            if i1 == 0 && j1 == n {
                assert(self@[i2][j2] == pre[i2][j2]);
            } else if i2 == 0 && j2 == n {
                assert(self@[i1][j1] == pre[i1][j1]);
            } else {
                assert(self@[i1][j1] == pre[i1][j1]);
                assert(self@[i2][j2] == pre[i2][j2]);
            }
        }
        true
    }

    /// The references of the messages of `topic` in the newest gossip-window
    /// slots, older slots first and each in insertion order.
    pub fn gossip_ids(&self, topic: &TopicHash) -> (r: Vec<MsgRep>)
        requires
            self.wf(),
        ensures
            r@.map_values(|x: MsgRep| x@) == window_ids(
                self@,
                if self@.len() < HISTORY_GOSSIP { self@.len() as int } else { HISTORY_GOSSIP as int },
                topic@,
            ),
    {
        let w: usize = if self.slots.len() < HISTORY_GOSSIP as usize {
            self.slots.len()
        } else {
            HISTORY_GOSSIP as usize
        };
        let ghost all = window_ids(self@, w as int, topic@);
        let mut out: Vec<MsgRep> = Vec::new();
        let mut k: usize = w;
        assert(out@.map_values(|x: MsgRep| x@) + window_ids(self@, k as int, topic@) =~= all);
        while k > 0
            invariant
                k <= w <= self@.len(),
                self@.len() == self.slots@.len(),
                out@.map_values(|x: MsgRep| x@) + window_ids(self@, k as int, topic@) == all,
            decreases k,
        {
            let slot = &self.slots[k - 1];
            assert(slot@ == self@[k - 1]);
            let ghost base = out@.map_values(|x: MsgRep| x@);
            let mut j: usize = 0;
            assert(out@.map_values(|x: MsgRep| x@) =~= base + slot_ids(slot@.subrange(0, 0), topic@));
            while j < slot.len()
                invariant
                    0 <= j <= slot@.len(),
                    out@.map_values(|x: MsgRep| x@) == base + slot_ids(slot@.subrange(0, j as int), topic@),
                decreases slot@.len() - j,
            {
                let m = &slot[j];
                let ghost pre_ids = out@.map_values(|x: MsgRep| x@);
                assert(slot@.subrange(0, j as int + 1).drop_last() =~= slot@.subrange(0, j as int));
                assert(slot@.subrange(0, j as int + 1).last() == *m);
                if m.has_topic(topic) {
                    out.push(MsgRep::Hash(m.hash.duplicate()));
                    assert(out@.map_values(|x: MsgRep| x@) =~= pre_ids.push((true, m.hash@)));
                }
                assert(out@.map_values(|x: MsgRep| x@) =~= base + slot_ids(slot@.subrange(0, j as int + 1), topic@));
                j = j + 1;
            }
            assert(slot@.subrange(0, j as int) =~= slot@);
            assert(out@.map_values(|x: MsgRep| x@) + window_ids(self@, k - 1, topic@) =~= all);
            k = k - 1;
        }
        assert(out@.map_values(|x: MsgRep| x@) =~= all);
        out
    }

    /// Moves the window on by one heartbeat.
    pub fn shift(&mut self)
        requires
            old(self).wf(),
        ensures
            final(self).wf(),
            final(self)@ == shifted(old(self)@),
    {
        let ghost pre = self@;
        self.slots.insert(0, Vec::new());
        assert(self@ =~= seq![Seq::<GMessage>::empty()] + pre);
        if self.slots.len() > MSG_HIST_LEN as usize {
            self.slots.pop();
            assert(self@ =~= (seq![Seq::<GMessage>::empty()] + pre).drop_last());
        }
        assert forall|i1: int, j1: int, i2: int, j2: int|
            0 <= i1 < self@.len() && 0 <= j1 < self@[i1].len() && 0 <= i2 < self@.len() && 0 <= j2
                < self@[i2].len() && (i1 != i2 || j1 != j2) implies (#[trigger] self@[i1][j1]).hash@ != (
            #[trigger] self@[i2][j2]).hash@ by {
            assert(self@[i1] == pre[i1 - 1]);
            assert(self@[i2] == pre[i2 - 1]);
        }
    }

    /// The number of slots.
    pub fn history_len(&self) -> (r: usize)
        ensures
            r == self@.len(),
    {
        self.slots.len()
    }
}

/// The hashes of the messages of the slots, newest slot first, each slot in
/// insertion order.
pub open spec fn slot_hashes(slots: Seq<Seq<GMessage>>) -> Seq<Seq<char>>
    decreases slots.len(),
{
    if slots.len() == 0 {
        Seq::empty()
    } else {
        slots[0].map_values(|m: GMessage| m.hash@) + slot_hashes(slots.drop_first())
    }
}

/// No hash is held at two positions of the slots.
pub open spec fn hashes_unique(slots: Seq<Seq<GMessage>>) -> bool {
    forall|i1: int, j1: int, i2: int, j2: int|
        0 <= i1 < slots.len() && 0 <= j1 < slots[i1].len() && 0 <= i2 < slots.len() && 0 <= j2
            < slots[i2].len() && (i1 != i2 || j1 != j2) ==> (#[trigger] slots[i1][j1]).hash@ != (
        #[trigger] slots[i2][j2]).hash@
}

/// The set of hashes held by some slot.
pub open spec fn union_of_slots(slots: Seq<Seq<GMessage>>) -> Set<Seq<char>> {
    Set::new(|h: Seq<char>| exists|i: int, j: int| 0 <= i < slots.len() && 0 <= j < slots[i].len() && (#[trigger] slots[i][j]).hash@ == h)
}

proof fn lemma_slot_hashes(slots: Seq<Seq<GMessage>>)
    requires
        hashes_unique(slots),
    ensures
        slot_hashes(slots).no_duplicates(),
        forall|h: Seq<char>| #[trigger] slot_hashes(slots).contains(h) <==> union_of_slots(slots).contains(h),
    decreases slots.len(),
{
    if slots.len() > 0 {
        let rest = slots.drop_first();
        assert forall|i1: int, j1: int, i2: int, j2: int|
            0 <= i1 < rest.len() && 0 <= j1 < rest[i1].len() && 0 <= i2 < rest.len() && 0 <= j2
                < rest[i2].len() && (i1 != i2 || j1 != j2) implies (#[trigger] rest[i1][j1]).hash@ != (
            #[trigger] rest[i2][j2]).hash@ by {
            assert(rest[i1] == slots[i1 + 1] && rest[i2] == slots[i2 + 1]);
        }
        lemma_slot_hashes(rest);
        let head = slots[0].map_values(|m: GMessage| m.hash@);
        let tail = slot_hashes(rest);
        let all = head + tail;
        assert(slot_hashes(slots) == all);
        assert forall|a: int, b: int| 0 <= a < b < all.len() implies all[a] != all[b] by {
            if b < head.len() {
                assert(head[a] == slots[0][a].hash@ && head[b] == slots[0][b].hash@);
            } else if a < head.len() {
                assert(all[b] == tail[b - head.len()]);
                assert(tail.contains(tail[b - head.len()]));
                let (i, j) = choose|i: int, j: int| 0 <= i < rest.len() && 0 <= j < rest[i].len() && (#[trigger] rest[i][j]).hash@ == tail[b - head.len()];
                assert(rest[i] == slots[i + 1]);
                assert(head[a] == slots[0][a].hash@);
                assert(slots[i + 1][j].hash@ != slots[0][a].hash@);
            } else {
                assert(all[a] == tail[a - head.len()] && all[b] == tail[b - head.len()]);
            }
        }
        assert forall|h: Seq<char>| #[trigger] all.contains(h) <==> union_of_slots(slots).contains(h) by {
            if all.contains(h) {
                let k = choose|k: int| 0 <= k < all.len() && all[k] == h;
                if k < head.len() {
                    assert(slots[0][k].hash@ == h);
                } else {
                    assert(tail[k - head.len()] == h);
                    assert(tail.contains(h));
                    let (i, j) = choose|i: int, j: int| 0 <= i < rest.len() && 0 <= j < rest[i].len() && (#[trigger] rest[i][j]).hash@ == h;
                    assert(slots[i + 1][j] == rest[i][j]);
                }
            }
            if union_of_slots(slots).contains(h) {
                let (i, j) = choose|i: int, j: int| 0 <= i < slots.len() && 0 <= j < slots[i].len() && (#[trigger] slots[i][j]).hash@ == h;
                if i == 0 {
                    assert(all[j] == h);
                } else {
                    assert(rest[i - 1][j] == slots[i][j]);
                    assert(union_of_slots(rest).contains(h));
                    assert(tail.contains(h));
                    let k = choose|k: int| 0 <= k < tail.len() && tail[k] == h;
                    assert(all[k + head.len()] == h);
                }
            }
        }
    } else {
        assert(union_of_slots(slots) =~= Set::<Seq<char>>::empty());
    }
}

/// The cache holds exactly one entry per message reference: the number of
/// messages across its slots equals the size of the union of the slots'
/// hash sets.
pub proof fn lemma_lookup_size_is_union_of_slots(c: &MCache)
    requires
        c.wf(),
    ensures
        union_of_slots(c@).finite(),
        slot_hashes(c@).len() == union_of_slots(c@).len(),
{
    lemma_slot_hashes(c@);
    let s = slot_hashes(c@);
    assert(s.to_set() =~= union_of_slots(c@)) by {
        assert forall|h: Seq<char>| s.to_set().contains(h) <==> union_of_slots(c@).contains(h) by {
            assert(s.contains(h) <==> union_of_slots(c@).contains(h));
        }
    }
    s.unique_seq_to_set();
}

} // verus!
