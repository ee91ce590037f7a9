use vstd::prelude::*;
use crate::constants::SEEN_MSGS_CACHE;
use crate::message::MsgHash;

verus! {

/// The seen set after observing `h`: unchanged when `h` is in it, else `h`
/// appended, after dropping the oldest entry when the set is full.
pub open spec fn seen_after(s: Seq<Seq<char>>, h: Seq<char>) -> Seq<Seq<char>> {
    if s.contains(h) {
        s
    } else if s.len() >= SEEN_MSGS_CACHE {
        s.drop_first().push(h)
    } else {
        s.push(h)
    }
}

/// The hashes of recently seen messages, oldest first, for duplicate
/// suppression.
pub struct SeenSet {
    entries: Vec<MsgHash>,
}

impl View for SeenSet {
    type V = Seq<Seq<char>>;

    closed spec fn view(&self) -> Seq<Seq<char>> {
        self.entries@.map_values(|h: MsgHash| h@)
    }
}

impl SeenSet {
    /// The set holds at most its capacity, each hash once.
    pub open spec fn wf(&self) -> bool {
        &&& self@.len() <= SEEN_MSGS_CACHE
        &&& self@.no_duplicates()
    }

    /// An empty set.
    pub fn new() -> (r: SeenSet)
        ensures
            r.wf(),
            r@ == Seq::<Seq<char>>::empty(),
    {
        let r = SeenSet { entries: Vec::new() };
        assert(r@ =~= Seq::<Seq<char>>::empty());
        r
    }

    /// The number of hashes held.
    pub fn len(&self) -> (r: usize)
        ensures
            r == self@.len(),
    {
        self.entries.len()
    }

    /// Whether `h` has been seen and not yet evicted.
    pub fn contains(&self, h: &MsgHash) -> (r: bool)
        ensures
            r == self@.contains(h@),
    {
        let mut i: usize = 0;
        while i < self.entries.len()
            invariant
                0 <= i <= self.entries@.len(),
                forall|j: int| 0 <= j < i ==> self.entries@[j]@ != h@,
            decreases self.entries@.len() - i,
        {
            if self.entries[i].same(h) {
                assert(self@[i as int] == h@);
                return true;
            }
            i = i + 1;
        }
        assert forall|j: int| 0 <= j < self@.len() implies self@[j] != h@ by {
            assert(self@[j] == self.entries@[j]@);
        }
        false
    }

    /// Records `h`; true when it was new, false when it was already held.
    /// Once the set is full the oldest hash makes room.
    pub fn observe(&mut self, h: &MsgHash) -> (r: bool)
        requires
            old(self).wf(),
        ensures
            final(self).wf(),
            r == !old(self)@.contains(h@),
            final(self)@ == seen_after(old(self)@, h@),
            final(self)@.contains(h@),
    {
        let ghost s = self@;
        if self.contains(h) {
            return false;
        }
        if self.entries.len() >= SEEN_MSGS_CACHE as usize {
            self.entries.remove(0);
            assert(self@ =~= s.drop_first());
        }
        let ghost mid = self@;
        self.entries.push(h.duplicate());
        assert(self@ =~= mid.push(h@));
        assert(self@[self@.len() - 1] == h@);
        assert forall|a: int, b: int| 0 <= a < b < self@.len() implies self@[a] != self@[b] by {
            if b == self@.len() - 1 {
                assert(mid[a] == self@[a]);
                if s.len() >= SEEN_MSGS_CACHE {
                    assert(s[a + 1] == mid[a]);
                } else {
                    assert(s[a] == mid[a]);
                }
            } else if s.len() >= SEEN_MSGS_CACHE {
                assert(s[a + 1] == self@[a]);
                assert(s[b + 1] == self@[b]);
            }
        }
        true
    }
}

/// Observing a hash twice: the first time it is new, the second time it is a
/// duplicate and the set does not change.
pub proof fn lemma_observe_twice(s: Seq<Seq<char>>, h: Seq<char>)
    ensures
        seen_after(s, h).contains(h),
        seen_after(seen_after(s, h), h) == seen_after(s, h),
{
    let t = seen_after(s, h);
    if !s.contains(h) {
        assert(t[t.len() - 1] == h);
    }
}

/// Observing never takes the set past its capacity.
pub proof fn lemma_seen_bounded(s: Seq<Seq<char>>, h: Seq<char>)
    requires
        s.len() <= SEEN_MSGS_CACHE,
    ensures
        seen_after(s, h).len() <= SEEN_MSGS_CACHE,
{
}

} // verus!
