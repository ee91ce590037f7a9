use vstd::prelude::*;
use crate::types::PeerId;

verus! {

/// The views of a sequence of peers.
pub open spec fn peer_views(ps: Seq<PeerId>) -> Seq<Seq<u8>> {
    ps.map_values(|p: PeerId| p@)
}

/// The sequence with every element after its first occurrence left out.
pub open spec fn dedup(s: Seq<Seq<u8>>) -> Seq<Seq<u8>>
    decreases s.len(),
{
    if s.len() == 0 {
        s
    } else if dedup(s.drop_last()).contains(s.last()) {
        dedup(s.drop_last())
    } else {
        dedup(s.drop_last()).push(s.last())
    }
}

/// `dedup` keeps exactly the elements of its input, each once.
pub proof fn lemma_dedup(s: Seq<Seq<u8>>)
    ensures
        dedup(s).no_duplicates(),
        forall|x: Seq<u8>| dedup(s).contains(x) <==> s.contains(x),
    decreases s.len(),
{
    if s.len() > 0 {
        lemma_dedup(s.drop_last());
        let d = dedup(s.drop_last());
        assert forall|x: Seq<u8>| s.contains(x) <==> (s.drop_last().contains(x) || x == s.last()) by {
            if s.contains(x) {
                let i = choose|i: int| 0 <= i < s.len() && s[i] == x;
                if i < s.len() - 1 {
                    assert(s.drop_last()[i] == x);
                }
            }
            if s.drop_last().contains(x) {
                let i = choose|i: int| 0 <= i < s.drop_last().len() && s.drop_last()[i] == x;
                assert(s[i] == x);
            }
            if x == s.last() {
                assert(s[s.len() - 1] == x);
            }
        }
        if !d.contains(s.last()) {
            assert forall|x: Seq<u8>| d.push(s.last()).contains(x) <==> (d.contains(x) || x == s.last()) by {
                if d.push(s.last()).contains(x) {
                    let i = choose|i: int| 0 <= i < d.len() + 1 && d.push(s.last())[i] == x;
                    if i < d.len() {
                        assert(d[i] == x);
                    }
                }
                if d.contains(x) {
                    let i = choose|i: int| 0 <= i < d.len() && d[i] == x;
                    assert(d.push(s.last())[i] == x);
                }
                if x == s.last() {
                    assert(d.push(s.last())[d.len() as int] == x);
                }
            }
        }
    }
}

/// The position of the first occurrence of `p` in `ps`.
pub fn position(ps: &Vec<PeerId>, p: &PeerId) -> (r: Option<usize>)
    ensures
        r matches Some(i) ==> i < ps@.len() && ps@[i as int]@ == p@
            && forall|j: int| 0 <= j < i ==> ps@[j]@ != p@,
        r is None ==> !peer_views(ps@).contains(p@),
{
    let mut i: usize = 0;
    while i < ps.len()
        invariant
            0 <= i <= ps@.len(),
            forall|j: int| 0 <= j < i ==> ps@[j]@ != p@,
        decreases ps@.len() - i,
    {
        if ps[i].same(p) {
            return Some(i);
        }
        i = i + 1;
    }
    assert forall|j: int| 0 <= j < peer_views(ps@).len() implies peer_views(ps@)[j] != p@ by {
        assert(peer_views(ps@)[j] == ps@[j]@);
    }
    None
}

/// Whether `p` occurs in `ps`.
pub fn contains_peer(ps: &Vec<PeerId>, p: &PeerId) -> (r: bool)
    ensures
        r == peer_views(ps@).contains(p@),
{
    match position(ps, p) {
        Some(i) => {
            assert(peer_views(ps@)[i as int] == p@);
            true
        },
        None => false,
    }
}

/// A copy of a list of peers.
pub fn copy_peers(ps: &Vec<PeerId>) -> (r: Vec<PeerId>)
    ensures
        peer_views(r@) == peer_views(ps@),
{
    let mut r: Vec<PeerId> = Vec::new();
    let mut i: usize = 0;
    while i < ps.len()
        invariant
            0 <= i <= ps@.len(),
            r@.len() == i,
            forall|j: int| 0 <= j < i ==> r@[j]@ == ps@[j]@,
        decreases ps@.len() - i,
    {
        r.push(ps[i].duplicate());
        i = i + 1;
    }
    assert(peer_views(r@) =~= peer_views(ps@));
    r
}

/// The peers of `ps`, each once, in the order of their first occurrence.
pub fn dedup_peers(ps: Vec<PeerId>) -> (r: Vec<PeerId>)
    ensures
        peer_views(r@) == dedup(peer_views(ps@)),
{
    let mut r: Vec<PeerId> = Vec::new();
    let mut i: usize = 0;
    while i < ps.len()
        invariant
            0 <= i <= ps@.len(),
            peer_views(r@) == dedup(peer_views(ps@).subrange(0, i as int)),
        decreases ps@.len() - i,
    {
        let ghost pre = peer_views(ps@).subrange(0, i as int + 1);
        assert(pre.drop_last() =~= peer_views(ps@).subrange(0, i as int));
        assert(pre.last() == ps@[i as int]@);
        if !contains_peer(&r, &ps[i]) {
            r.push(ps[i].duplicate());
            assert(peer_views(r@) =~= dedup(pre));
        }
        i = i + 1;
    }
    assert(peer_views(ps@).subrange(0, i as int) =~= peer_views(ps@));
    r
}

/// Removes the first occurrence of `p` from `ps`, if there is one.
pub fn remove_peer_value(ps: &mut Vec<PeerId>, p: &PeerId) -> (r: bool)
    ensures
        r == peer_views(old(ps)@).contains(p@),
        peer_views(final(ps)@) == peer_views(old(ps)@).remove_value(p@),
{
    match position(ps, p) {
        Some(i) => {
            let ghost v = peer_views(ps@);
            proof {
                v.index_of_first_ensures(p@);
                assert(v[i as int] == p@);
                let k = v.index_of_first(p@).unwrap();
                assert(v[k] == p@);
                if k < i {
                    assert(ps@[k]@ == p@);
                }
            }
            ps.remove(i);
            assert(peer_views(ps@) =~= v.remove(i as int));
            true
        },
        None => {
            proof {
                peer_views(ps@).index_of_first_ensures(p@);
            }
            false
        },
    }
}

/// Removing a value from a sequence without duplicates removes exactly that
/// value and keeps the rest without duplicates.
pub proof fn lemma_remove_value(s: Seq<Seq<u8>>, x: Seq<u8>)
    requires
        s.no_duplicates(),
    ensures
        s.remove_value(x).no_duplicates(),
        forall|y: Seq<u8>| #[trigger] s.remove_value(x).contains(y) <==> (s.contains(y) && y != x),
{
    s.index_of_first_ensures(x);
    match s.index_of_first(x) {
        Some(k) => {
            let r = s.remove(k);
            assert forall|a: int| 0 <= a < r.len() implies r[a] == s[if a < k { a } else { a + 1 }] by {}
            assert forall|a: int, b: int| 0 <= a < b < r.len() implies r[a] != r[b] by {
                let a2 = if a < k { a } else { a + 1 };
                let b2 = if b < k { b } else { b + 1 };
                assert(r[a] == s[a2] && r[b] == s[b2]);
            }
            assert forall|y: Seq<u8>| r.contains(y) <==> (s.contains(y) && y != x) by {
                if r.contains(y) {
                    let a = choose|a: int| 0 <= a < r.len() && r[a] == y;
                    let a2 = if a < k { a } else { a + 1 };
                    assert(s[a2] == y);
                    assert(a2 != k);
                }
                if s.contains(y) && y != x {
                    let a = choose|a: int| 0 <= a < s.len() && s[a] == y;
                    assert(a != k);
                    let a2 = if a < k { a } else { a - 1 };
                    assert(r[a2] == y);
                }
            }
        },
        None => {},
    }
}

/// `dedup` leaves a sequence without duplicates as it is.
pub proof fn lemma_dedup_unique(s: Seq<Seq<u8>>)
    requires
        s.no_duplicates(),
    ensures
        dedup(s) == s,
    decreases s.len(),
{
    if s.len() > 0 {
        let d = s.drop_last();
        assert(d.no_duplicates()) by {
            assert forall|a: int, b: int| 0 <= a < b < d.len() implies d[a] != d[b] by {
                assert(d[a] == s[a] && d[b] == s[b]);
            }
        }
        lemma_dedup_unique(d);
        if d.contains(s.last()) {
            let k = choose|k: int| 0 <= k < d.len() && d[k] == s.last();
            assert(s[k] == s[s.len() - 1]);
        }
        assert(d.push(s.last()) =~= s);
    }
}

} // verus!
