use vstd::prelude::*;
use crate::constants::{HIGH_WM_MESH_DEGREE, LOW_WM_MESH_DEGREE, TARGET_MESH_DEGREE};
use crate::peers::{contains_peer, peer_views};
use crate::types::PeerId;

verus! {

/// The position reached `q` steps after `start` when walking `n` places
/// round from the end back to the front.
pub open spec fn rot(start: int, q: int, n: int) -> int {
    if start + q < n {
        start + q
    } else {
        start + q - n
    }
}

/// Every element of `a` is an element of `b`.
pub open spec fn within(a: Seq<Seq<u8>>, b: Seq<Seq<u8>>) -> bool {
    forall|x: Seq<u8>| a.contains(x) ==> b.contains(x)
}

/// Two sequences without duplicates and with the same elements have the
/// same length.
pub proof fn lemma_same_elements_same_len(a: Seq<Seq<u8>>, b: Seq<Seq<u8>>)
    requires
        a.no_duplicates(),
        b.no_duplicates(),
        within(a, b),
        within(b, a),
    ensures
        a.len() == b.len(),
{
    assert(a.to_set() =~= b.to_set()) by {
        assert forall|x: Seq<u8>| a.to_set().contains(x) <==> b.to_set().contains(x) by {
            if a.contains(x) {
                assert(b.contains(x));
            }
            if b.contains(x) {
                assert(a.contains(x));
            }
        }
    }
    a.unique_seq_to_set();
    b.unique_seq_to_set();
}

/// A sequence without duplicates whose elements all lie in another has at
/// most its length.
pub proof fn lemma_within_len(a: Seq<Seq<u8>>, b: Seq<Seq<u8>>)
    requires
        a.no_duplicates(),
        within(a, b),
    ensures
        a.len() <= b.len(),
{
    assert(a.to_set().subset_of(b.to_set())) by {
        assert forall|x: Seq<u8>| a.to_set().contains(x) implies b.to_set().contains(x) by {
            assert(a.contains(x));
        }
    }
    a.unique_seq_to_set();
    b.lemma_cardinality_of_set();
    vstd::set_lib::lemma_len_subset(a.to_set(), b.to_set());
}

/// What the heartbeat does to the mesh of one topic: the new mesh, the peers
/// to send GRAFT to, and the peers to send PRUNE to.
pub struct MeshRepair {
    pub mesh: Vec<PeerId>,
    pub grafted: Vec<PeerId>,
    pub pruned: Vec<PeerId>,
}

/// Repairs the mesh of one topic. Below the low water mark it grafts fresh
/// subscribers, walking them from position `offset` round, until the target
/// degree is reached or none is left; above the high water mark it keeps the
/// target degree of peers, walking from `offset`, and prunes the rest.
/// Otherwise the mesh stays as it is.
pub fn repair_mesh(mesh: Vec<PeerId>, subscribers: &Vec<PeerId>, offset: u64) -> (r: MeshRepair)
    requires
        peer_views(mesh@).no_duplicates(),
        peer_views(subscribers@).no_duplicates(),
        within(peer_views(mesh@), peer_views(subscribers@)),
    ensures
        peer_views(r.mesh@).no_duplicates(),
        within(peer_views(r.mesh@), peer_views(subscribers@)),
        subscribers@.len() >= LOW_WM_MESH_DEGREE ==> LOW_WM_MESH_DEGREE <= r.mesh@.len() <= HIGH_WM_MESH_DEGREE,
        subscribers@.len() < LOW_WM_MESH_DEGREE ==> within(peer_views(subscribers@), peer_views(r.mesh@)),
        mesh@.len() < LOW_WM_MESH_DEGREE ==> peer_views(r.mesh@) == peer_views(mesh@) + peer_views(r.grafted@)
            && r.pruned@.len() == 0
            && r.mesh@.len() == (if subscribers@.len() < TARGET_MESH_DEGREE { subscribers@.len() as int } else { TARGET_MESH_DEGREE as int }),
        mesh@.len() > HIGH_WM_MESH_DEGREE ==> r.mesh@.len() == TARGET_MESH_DEGREE && r.grafted@.len() == 0
            && within(peer_views(r.mesh@), peer_views(mesh@))
            && peer_views(r.mesh@).len() + peer_views(r.pruned@).len() == mesh@.len()
            && forall|x: Seq<u8>| peer_views(r.pruned@).contains(x) ==> peer_views(mesh@).contains(x)
                && !peer_views(r.mesh@).contains(x),
        LOW_WM_MESH_DEGREE <= mesh@.len() <= HIGH_WM_MESH_DEGREE ==> peer_views(r.mesh@) == peer_views(mesh@)
            && r.grafted@.len() == 0 && r.pruned@.len() == 0,
        forall|x: Seq<u8>| #[trigger] peer_views(r.grafted@).contains(x) ==> peer_views(r.mesh@).contains(x)
            && !peer_views(mesh@).contains(x),
        forall|x: Seq<u8>| #[trigger] peer_views(r.pruned@).contains(x) ==> peer_views(mesh@).contains(x)
            && !peer_views(r.mesh@).contains(x),
        forall|x: Seq<u8>| #[trigger] peer_views(mesh@).contains(x) && !peer_views(r.mesh@).contains(x)
            ==> peer_views(r.pruned@).contains(x),
        forall|x: Seq<u8>| #[trigger] peer_views(r.mesh@).contains(x) && !peer_views(mesh@).contains(x)
            ==> peer_views(r.grafted@).contains(x),
{
    proof {
        lemma_within_len(peer_views(mesh@), peer_views(subscribers@));
    }
    if mesh.len() < LOW_WM_MESH_DEGREE as usize {
        let r = grow_mesh(mesh, subscribers, offset);
        proof {
            lemma_within_len(peer_views(r.mesh@), peer_views(subscribers@));
            if r.mesh@.len() != TARGET_MESH_DEGREE {
                lemma_same_elements_same_len(peer_views(r.mesh@), peer_views(subscribers@));
            }
            let mv = peer_views(mesh@);
            let gv = peer_views(r.grafted@);
            let rv = peer_views(r.mesh@);
            assert forall|x: Seq<u8>| #[trigger] gv.contains(x) implies rv.contains(x) && !mv.contains(x) by {
                let k = choose|k: int| 0 <= k < gv.len() && gv[k] == x;
                assert(rv[mv.len() + k] == x);
                if mv.contains(x) {
                    let q = choose|q: int| 0 <= q < mv.len() && mv[q] == x;
                    assert(rv[q] == x);
                }
            }
            assert(peer_views(r.pruned@) =~= Seq::<Seq<u8>>::empty());
            assert forall|x: Seq<u8>| #[trigger] rv.contains(x) && !mv.contains(x) implies gv.contains(x) by {
                let k = choose|k: int| 0 <= k < rv.len() && rv[k] == x;
                if k < mv.len() {
                    assert(mv[k] == x);
                } else {
                    assert(gv[k - mv.len()] == x);
                }
            }
            assert forall|x: Seq<u8>| #[trigger] mv.contains(x) implies rv.contains(x) by {
                let k = choose|k: int| 0 <= k < mv.len() && mv[k] == x;
                assert(rv[k] == x);
            }
        }
        r
    } else if mesh.len() > HIGH_WM_MESH_DEGREE as usize {
        let r = shrink_mesh(&mesh, offset);
        proof {
            lemma_within_trans(peer_views(r.mesh@), peer_views(mesh@), peer_views(subscribers@));
            assert(peer_views(r.grafted@) =~= Seq::<Seq<u8>>::empty());
        }
        r
    } else {
        let r = MeshRepair { mesh, grafted: Vec::new(), pruned: Vec::new() };
        assert(peer_views(r.grafted@) =~= Seq::<Seq<u8>>::empty());
        assert(peer_views(r.pruned@) =~= Seq::<Seq<u8>>::empty());
        r
    }
}

proof fn lemma_within_trans(a: Seq<Seq<u8>>, b: Seq<Seq<u8>>, c: Seq<Seq<u8>>)
    requires
        within(a, b),
        within(b, c),
    ensures
        within(a, c),
{
}

fn grow_mesh(mesh: Vec<PeerId>, subscribers: &Vec<PeerId>, offset: u64) -> (r: MeshRepair)
    requires
        mesh@.len() < LOW_WM_MESH_DEGREE,
        peer_views(mesh@).no_duplicates(),
        peer_views(subscribers@).no_duplicates(),
        within(peer_views(mesh@), peer_views(subscribers@)),
    ensures
        peer_views(r.mesh@).no_duplicates(),
        within(peer_views(r.mesh@), peer_views(subscribers@)),
        peer_views(r.mesh@) == peer_views(mesh@) + peer_views(r.grafted@),
        r.pruned@.len() == 0,
        r.mesh@.len() == TARGET_MESH_DEGREE || within(peer_views(subscribers@), peer_views(r.mesh@)),
        r.mesh@.len() <= TARGET_MESH_DEGREE,
{
    let n = subscribers.len();
    let start: usize = if n == 0 { 0 } else { (offset % (n as u64)) as usize };
    let ghost subs = peer_views(subscribers@);
    let ghost m0 = peer_views(mesh@);
    let mut out = mesh;
    let mut grafted: Vec<PeerId> = Vec::new();
    let mut k: usize = 0;
    while k < n && out.len() < TARGET_MESH_DEGREE as usize
        invariant
            n == subscribers@.len(),
            subs == peer_views(subscribers@),
            subs.no_duplicates(),
            n == 0 || start < n,
            0 <= k <= n,
            out@.len() <= TARGET_MESH_DEGREE,
            peer_views(out@).no_duplicates(),
            within(peer_views(out@), subs),
            peer_views(out@) == m0 + peer_views(grafted@),
            forall|q: int| 0 <= q < k ==> peer_views(out@).contains(#[trigger] subs[rot(start as int, q, n as int)]),
        decreases n - k,
    {
        let idx: usize = if k < n - start { start + k } else { k - (n - start) };
        let cand = &subscribers[idx];
        assert(subs[idx as int] == cand@);
        if !contains_peer(&out, cand) {
            let ghost before = peer_views(out@);
            let ghost gbefore = peer_views(grafted@);
            out.push(cand.duplicate());
            grafted.push(cand.duplicate());
            assert(peer_views(out@) =~= before.push(cand@));
            assert(peer_views(grafted@) =~= gbefore.push(cand@));
            assert(peer_views(out@) =~= m0 + peer_views(grafted@));
            assert forall|a: int, b: int| 0 <= a < b < peer_views(out@).len() implies peer_views(out@)[a] != peer_views(out@)[b] by {
                if b == before.len() {
                    assert(before.contains(before[a]));
                }
            }
            assert forall|x: Seq<u8>| peer_views(out@).contains(x) implies subs.contains(x) by {
                let j = choose|j: int| 0 <= j < peer_views(out@).len() && peer_views(out@)[j] == x;
                if j < before.len() {
                    assert(before[j] == x);
                    assert(before.contains(x));
                } else {
                    assert(subs[idx as int] == x);
                }
            }
            assert forall|q: int| 0 <= q < k + 1 implies peer_views(out@).contains(#[trigger] subs[rot(start as int, q, n as int)]) by {
                if q < k {
                    let y = subs[rot(start as int, q, n as int)];
                    assert(before.contains(y));
                    let j = choose|j: int| 0 <= j < before.len() && before[j] == y;
                    assert(peer_views(out@)[j] == y);
                } else {
                    assert(peer_views(out@)[before.len() as int] == cand@);
                }
            }
        } else {
            assert(peer_views(out@).contains(subs[rot(start as int, k as int, n as int)]));
        }
        k = k + 1;
    }
    proof {
        if out@.len() != TARGET_MESH_DEGREE {
            assert forall|x: Seq<u8>| subs.contains(x) implies peer_views(out@).contains(x) by {
                let j = choose|j: int| 0 <= j < subs.len() && subs[j] == x;
                let q = if j >= start { j - start } else { j + n - start };
                assert(rot(start as int, q, n as int) == j);
            }
        }
    }
    MeshRepair { mesh: out, grafted, pruned: Vec::new() }
}

fn shrink_mesh(mesh: &Vec<PeerId>, offset: u64) -> (r: MeshRepair)
    requires
        mesh@.len() > HIGH_WM_MESH_DEGREE,
        peer_views(mesh@).no_duplicates(),
    ensures
        r.mesh@.len() == TARGET_MESH_DEGREE,
        r.grafted@.len() == 0,
        peer_views(r.mesh@).no_duplicates(),
        within(peer_views(r.mesh@), peer_views(mesh@)),
        peer_views(r.mesh@).len() + peer_views(r.pruned@).len() == mesh@.len(),
        forall|x: Seq<u8>| peer_views(r.pruned@).contains(x) ==> peer_views(mesh@).contains(x)
            && !peer_views(r.mesh@).contains(x),
        forall|x: Seq<u8>| #[trigger] peer_views(mesh@).contains(x) ==> peer_views(r.mesh@).contains(x)
            || peer_views(r.pruned@).contains(x),
{
    let n = mesh.len();
    let start: usize = (offset % (n as u64)) as usize;
    let ghost mv = peer_views(mesh@);
    let mut kept: Vec<PeerId> = Vec::new();
    let mut pruned: Vec<PeerId> = Vec::new();
    let mut q: usize = 0;
    while q < n
        invariant
            n == mesh@.len(),
            mv == peer_views(mesh@),
            mv.no_duplicates(),
            start < n,
            0 <= q <= n,
            TARGET_MESH_DEGREE < n,
            kept@.len() == if q < TARGET_MESH_DEGREE { q as int } else { TARGET_MESH_DEGREE as int },
            pruned@.len() == if q < TARGET_MESH_DEGREE { 0 } else { q - TARGET_MESH_DEGREE },
            forall|j: int| 0 <= j < kept@.len() ==> (#[trigger] kept@[j])@ == mv[rot(start as int, j, n as int)],
            forall|j: int| 0 <= j < pruned@.len() ==> (#[trigger] pruned@[j])@ == mv[rot(start as int, j + TARGET_MESH_DEGREE, n as int)],
        decreases n - q,
    {
        let idx: usize = if q < n - start { start + q } else { q - (n - start) };
        if q < TARGET_MESH_DEGREE as usize {
            kept.push(mesh[idx].duplicate());
        } else {
            pruned.push(mesh[idx].duplicate());
        }
        q = q + 1;
    }
    proof {
        let kv = peer_views(kept@);
        let pv = peer_views(pruned@);
        assert forall|a: int, b: int| 0 <= a < b < kv.len() implies kv[a] != kv[b] by {
            assert(kv[a] == mv[rot(start as int, a, n as int)]);
            assert(kv[b] == mv[rot(start as int, b, n as int)]);
        }
        assert forall|x: Seq<u8>| kv.contains(x) implies mv.contains(x) by {
            let j = choose|j: int| 0 <= j < kv.len() && kv[j] == x;
            assert(kv[j] == mv[rot(start as int, j, n as int)]);
        }
        assert forall|x: Seq<u8>| #[trigger] mv.contains(x) implies kv.contains(x) || pv.contains(x) by {
            let j = choose|j: int| 0 <= j < mv.len() && mv[j] == x;
            let q = if j >= start { j - start } else { j + n - start };
            assert(rot(start as int, q, n as int) == j);
            if q < TARGET_MESH_DEGREE {
                assert(kv[q] == x);
            } else {
                assert(pv[q - TARGET_MESH_DEGREE] == x);
            }
        }
        assert forall|x: Seq<u8>| pv.contains(x) implies mv.contains(x) && !kv.contains(x) by {
            let j = choose|j: int| 0 <= j < pv.len() && pv[j] == x;
            assert(pv[j] == mv[rot(start as int, j + TARGET_MESH_DEGREE, n as int)]);
            if kv.contains(x) {
                let i = choose|i: int| 0 <= i < kv.len() && kv[i] == x;
                assert(kv[i] == mv[rot(start as int, i, n as int)]);
            }
        }
    }
    MeshRepair { mesh: kept, grafted: Vec::new(), pruned }
}

} // verus!
