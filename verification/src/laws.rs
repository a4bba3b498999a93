//! The general properties of the mesh, stated and proved once and for all:
//! construction yields meshes that pass every verification pass, twins pair
//! up symmetrically, face boundaries close after exactly their degree, and
//! the corner lists read back from a constructed mesh are the input itself.

use crate::construct::block_linked_at;
use crate::construct::construction_ok;
use crate::construct::estart;
use crate::construct::etotal;
use crate::construct::face_degenerate;
use crate::construct::ipair;
use crate::construct::lemma_estart_bound;
use crate::construct::lemma_finish;
use crate::construct::lemma_next_k_block;
use crate::construct::lemma_slot_coverage;
use crate::construct::lemma_slot_owner_unique;
use crate::construct::pos_ok;
use crate::construct::rooted_at;
use crate::construct::slot_of;
use crate::construct::swapped;
use crate::construct::vrep_track_at;
use crate::construct::vseq;
use crate::douconel::Douconel;
use crate::ids::FaceMap;
use crate::ids::VertMap;
use crate::traverse::lemma_next_k_add;
use crate::traverse::lemma_next_k_window;
use vstd::prelude::*;

verus! {

broadcast use crate::ids::lemma_vertid_view, crate::ids::lemma_edgeid_view, crate::ids::lemma_faceid_view, crate::ids::lemma_vertmap_entries, crate::ids::lemma_facemap_entries, crate::douconel::lemma_model_counts, crate::douconel::lemma_model_edge, crate::douconel::lemma_model_reps;

/// Law: any mesh matching the construction's promises is structurally
/// sound, so it passes `verify_properties`, `verify_references` and
/// `verify_invariants`, whose contracts return `Ok` exactly on these
/// predicates.  It also keeps its representatives pointing back and its
/// `next` relation injective.
pub proof fn lemma_construction_verifies(
    faces: Seq<Seq<usize>>,
    m: Douconel,
    vm: VertMap,
    fm: FaceMap,
)
    requires
        construction_ok(faces, m, vm, fm),
    ensures
        m.props_ok(),
        m.refs_ok(),
        m.inv_twin(),
        m.inv_root(),
        m.inv_face(),
        m.inv_cycle(),
        m.wf(),
        m.rep_ok(),
        m.next_injective(),
{
    let vs = vseq(faces);
    let ne = etotal(faces);
    assert(m.edges.len() == m.edges@.len());
    assert(m.verts.len() == m.verts@.len());
    assert(m.faces.len() == m.faces@.len());
    crate::construct::lemma_dedup_nodup(crate::construct::flat(faces));
    // reconstruct the directed slot pairs from the stored relations
    let ps = Seq::new(m.ne(), |s: int| (m.root_of(s).unwrap(), m.root_of(m.enext(s)).unwrap()));
    // each corner position's slot carries its root and pair
    assert forall|t: int, u: int|
        0 <= t < faces.len() && 0 <= u < faces[t].len() implies #[trigger] rooted_at(
        faces,
        vs,
        m.edges@,
        ps,
        t,
        u,
    ) && block_linked_at(faces, m.edges@, t, u) by {
        lemma_estart_bound(faces, t);
        let s = slot_of(faces, t, u);
        let d = faces[t].len() as int;
        vstd::arithmetic::div_mod::lemma_mod_bound(u + 1, d);
        assert(pos_ok(faces, t, (u + 1) % d));
        lemma_estart_bound(faces, t);
        assert(0 <= estart(faces, t) + (u + 1) % d < ne);
        assert(m.enext(s) == slot_of(faces, t, (u + 1) % d));
        assert(ps[s].0 == m.root_of(s).unwrap());
        assert(ps[s].1 == m.root_of(slot_of(faces, t, (u + 1) % d)).unwrap());
    }
    // distinct positions have distinct pairs, because the input is manifold
    assert forall|x: int, y: int| 0 <= x < y < ps.len() implies ps[x] != ps[y] by {
        if ps[x] == ps[y] {
            lemma_slot_coverage(faces, faces.len() as int, x);
            lemma_slot_coverage(faces, faces.len() as int, y);
            let (t1, u1): (int, int) = choose|t1: int, u1: int|
                0 <= t1 < faces.len() && 0 <= u1 < faces[t1].len() && x == #[trigger] slot_of(
                    faces,
                    t1,
                    u1,
                );
            let (t2, u2): (int, int) = choose|t2: int, u2: int|
                0 <= t2 < faces.len() && 0 <= u2 < faces[t2].len() && y == #[trigger] slot_of(
                    faces,
                    t2,
                    u2,
                );
            assert(rooted_at(faces, vs, m.edges@, ps, t1, u1));
            assert(rooted_at(faces, vs, m.edges@, ps, t2, u2));
            lemma_slot_owner_unique(faces, t1, u1, t2, u2);
            assert(ipair(faces, t1, u1) == (vs[ps[x].0 as int], vs[ps[x].1 as int]));
            assert(ipair(faces, t2, u2) == (vs[ps[y].0 as int], vs[ps[y].1 as int]));
            assert(ipair(faces, t1, u1) == ipair(faces, t2, u2));
            assert(false);
        }
    }
    // the stored representatives track the last rooted edge
    assert forall|v: usize| (v as int) < m.verts@.len() implies #[trigger] vrep_track_at(
        m.verts@,
        m.edges@,
        v,
    ) by {
        assert(0 <= (v as int) && (v as int) < m.nv());
        assert(m.vrep_of(v as int) is Some);
        let r = m.vrep_of(v as int).unwrap();
        assert(m.verts@[v as int] == Some(r));
        assert(m.root_of(r as int) == Some(v));
        assert forall|s: int| r < s < m.edges@.len() implies (#[trigger] m.edges@[s]).root
            != Some(v) by {
            assert(m.root_of(s) != Some(v));
        }
    }
    // the stored twins hold the reversed pair
    assert forall|s: int|
        0 <= s < m.edges@.len() implies (#[trigger] m.edges@[s]).twin is Some && (m.edges@[
    s].twin.unwrap() as int) < ps.len() && ps[m.edges@[s].twin.unwrap() as int] == swapped(
        ps,
        s,
    ) by {
        lemma_slot_coverage(faces, faces.len() as int, s);
        let (t, u): (int, int) = choose|t: int, u: int|
            0 <= t < faces.len() && 0 <= u < faces[t].len() && s == #[trigger] slot_of(
                faces,
                t,
                u,
            );
        assert(m.twin_of(s) is Some);
        let (i2, j2): (int, int) = choose|i2: int, j2: int|
            pos_ok(faces, i2, j2) && #[trigger] ipair(faces, i2, j2) == (
            ipair(faces, t, u).1,
            ipair(faces, t, u).0,
            ) && m.twin_of(slot_of(faces, t, u)).unwrap() == slot_of(faces, i2, j2);
        let x = slot_of(faces, i2, j2);
        lemma_estart_bound(faces, i2);
        assert(rooted_at(faces, vs, m.edges@, ps, i2, j2));
        assert(rooted_at(faces, vs, m.edges@, ps, t, u));
        assert(vs[ps[x].0 as int] == ipair(faces, i2, j2).0);
        assert(vs[ps[x].1 as int] == ipair(faces, i2, j2).1);
        assert(vs[ps[s].0 as int] == ipair(faces, t, u).0);
        assert(vs[ps[s].1 as int] == ipair(faces, t, u).1);
        assert(ps[x].0 == ps[s].1);
        assert(ps[x].1 == ps[s].0);
        assert(ps[x] == swapped(ps, s));
    }
    assert forall|i: int| 0 <= i < faces.len() implies m.faces@[i] == Some(
        estart(faces, i) as usize,
    ) by {
        assert(m.frep_of(i) == Some(estart(faces, i) as usize));
    }
    lemma_finish(faces, vs, m, ps);
}

/// Law: in a sound mesh the twin relation is an involution — the twin of a
/// half-edge's twin is the half-edge itself.
pub proof fn lemma_twin_involution(m: Douconel, e: int)
    requires
        m.wf(),
        0 <= e < m.ne(),
    ensures
        m.etwin(m.etwin(e)) == e,
{
}

/// The half-edge `e` lies on the boundary orbit of its own face's
/// representative.
pub open spec fn on_face_orbit(m: Douconel, e: int) -> bool {
    exists|k: nat|
        k < m.ne() && #[trigger] m.next_k(m.frep_of(m.eface(e)).unwrap() as int, k) == e
}

/// Every half-edge lies on the boundary orbit of its own face's
/// representative.  Constructed meshes have this shape.
pub open spec fn face_coherent(m: Douconel) -> bool {
    forall|e: int| 0 <= e < m.ne() ==> #[trigger] on_face_orbit(m, e)
}

/// A constructed mesh is face-coherent.
pub proof fn lemma_construction_face_coherent(
    faces: Seq<Seq<usize>>,
    m: Douconel,
    vm: VertMap,
    fm: FaceMap,
)
    requires
        construction_ok(faces, m, vm, fm),
    ensures
        face_coherent(m),
{
    assert(m.edges.len() == m.edges@.len());
    assert(m.faces.len() == m.faces@.len());
    assert forall|e: int| 0 <= e < m.ne() implies #[trigger] on_face_orbit(m, e) by {
        lemma_slot_coverage(faces, faces.len() as int, e);
        let (t, u): (int, int) = choose|t: int, u: int|
            0 <= t < faces.len() && 0 <= u < faces[t].len() && e == #[trigger] slot_of(
                faces,
                t,
                u,
            );
        assert(!face_degenerate(faces[t]));
        let d = faces[t].len() as int;
        lemma_estart_bound(faces, t);
        assert(m.face_of(slot_of(faces, t, u)) == Some(t as usize));
        assert(m.eface(e) == t);
        assert(m.frep_of(t) == Some(estart(faces, t) as usize));
        assert(m.frep_of(t).unwrap() as int == estart(faces, t));
        assert(estart(faces, t) == slot_of(faces, t, 0));
        lemma_next_k_block(faces, m, t, 0, u as nat);
        vstd::arithmetic::div_mod::lemma_small_mod(u as nat, d as nat);
        lemma_estart_bound(faces, t);
        assert(m.next_k(slot_of(faces, t, 0), u as nat) == e);
        assert((u as nat) < m.ne());
        assert(on_face_orbit(m, e));
    }
}

/// Law: from any half-edge of a sound, face-coherent mesh, repeated `next`
/// first returns to the edge after exactly the length of its face's
/// boundary cycle — the number of the face's corners — and never earlier.
pub proof fn lemma_next_first_return(m: Douconel, e: int, len: nat)
    requires
        m.wf(),
        face_coherent(m),
        0 <= e < m.ne(),
        1 <= len,
        m.next_k(m.frep_of(m.eface(e)).unwrap() as int, len) == m.frep_of(
            m.eface(e),
        ).unwrap(),
        forall|k: nat|
            1 <= k < len ==> #[trigger] m.next_k(m.frep_of(m.eface(e)).unwrap() as int, k)
                != m.frep_of(m.eface(e)).unwrap(),
    ensures
        m.next_k(e, len) == e,
        forall|k: nat| 1 <= k < len ==> #[trigger] m.next_k(e, k) != e,
{
    let rep = m.frep_of(m.eface(e)).unwrap() as int;
    assert(on_face_orbit(m, e));
    let j0 = choose|j: nat| j < m.ne() && #[trigger] m.next_k(rep, j) == e;
    // bring the position of `e` on the cycle below the cycle length
    lemma_next_k_window(m, rep, len, j0);
    let j = j0 % len;
    assert(m.next_k(rep, j) == e);
    let t = (len - j) as nat;
    // returning: walking `len` steps from `e` lands where walking
    // `j + len` steps from the representative lands, which is `e` again
    lemma_next_k_add(m, rep, j, len);
    assert(m.next_k(rep, j + len) == m.next_k(e, len));
    lemma_next_k_add(m, rep, len, j);
    assert(m.next_k(rep, len + j) == m.next_k(m.next_k(rep, len), j));
    assert(m.next_k(e, len) == e);
    // never earlier: an earlier return of `e` would close the
    // representative's cycle early too
    assert forall|k: nat| 1 <= k < len implies #[trigger] m.next_k(e, k) != e by {
        if m.next_k(e, k) == e {
            lemma_next_k_add(m, rep, j, k);
            assert(m.next_k(rep, (j + k) as nat) == e);
            lemma_next_k_add(m, rep, (j + k) as nat, t);
            assert(m.next_k(rep, (j + k + t) as nat) == m.next_k(e, t));
            lemma_next_k_add(m, rep, j, t);
            assert(m.next_k(rep, (j + t) as nat) == m.next_k(e, t));
            assert(j + t == len);
            assert(m.next_k(e, t) == rep);
            assert(m.next_k(rep, (len + k) as nat) == rep);
            lemma_next_k_add(m, rep, len, k);
            assert(m.next_k(rep, (len + k) as nat) == m.next_k(rep, k));
            assert(m.next_k(rep, k) == rep);
            assert(false);
        }
    }
}

/// Law: every edge of a face's boundary orbit lies in that face.
pub proof fn lemma_boundary_in_face(m: Douconel, f: int, k: nat)
    requires
        m.wf(),
        m.rep_ok(),
        0 <= f < m.nf(),
    ensures
        0 <= m.next_k(m.frep_of(f).unwrap() as int, k) < m.ne(),
        m.eface(m.next_k(m.frep_of(f).unwrap() as int, k)) == f,
    decreases k,
{
    let rep = m.frep_of(f).unwrap() as int;
    if k == 0 {
        assert(m.vrep_of(f) == m.vrep_of(f));
    } else {
        lemma_boundary_in_face(m, f, (k - 1) as nat);
        let prev = m.next_k(rep, (k - 1) as nat);
        assert(m.eface(#[trigger] m.enext(prev)) == m.eface(prev));
    }
}

/// Law: a walk's first return count is unique — the edge list and corner
/// list of a face therefore have the same length.
pub proof fn lemma_first_return_unique(m: Douconel, e: int, l1: nat, l2: nat)
    requires
        1 <= l1,
        1 <= l2,
        m.next_k(e, l1) == e,
        m.next_k(e, l2) == e,
        forall|k: nat| 1 <= k < l1 ==> #[trigger] m.next_k(e, k) != e,
        forall|k: nat| 1 <= k < l2 ==> #[trigger] m.next_k(e, k) != e,
    ensures
        l1 == l2,
{
    if l1 < l2 {
        assert(m.next_k(e, l1) != e);
    } else if l2 < l1 {
        assert(m.next_k(e, l2) != e);
    }
}

/// In a constructed mesh, the boundary cycle of the face built from input
/// face `i` closes after exactly that face's corner count.
pub proof fn lemma_face_degree(faces: Seq<Seq<usize>>, m: Douconel, vm: VertMap, fm: FaceMap, i: int)
    requires
        construction_ok(faces, m, vm, fm),
        0 <= i < faces.len(),
    ensures
        m.next_k(m.frep_of(i).unwrap() as int, faces[i].len()) == m.frep_of(i).unwrap(),
        forall|k: nat|
            1 <= k < faces[i].len() ==> #[trigger] m.next_k(m.frep_of(i).unwrap() as int, k)
                != m.frep_of(i).unwrap(),
{
    assert(m.edges.len() == m.edges@.len());
    assert(!face_degenerate(faces[i]));
    let d = faces[i].len() as int;
    lemma_estart_bound(faces, i);
    assert(m.frep_of(i) == Some(estart(faces, i) as usize));
    let rep = m.frep_of(i).unwrap() as int;
    assert(rep == estart(faces, i));
    assert(rep == slot_of(faces, i, 0));
    lemma_next_k_block(faces, m, i, 0, d as nat);
    vstd::arithmetic::div_mod::lemma_mod_self_0(d);
    assert(m.next_k(rep, d as nat) == slot_of(faces, i, 0));
    assert forall|k: nat| 1 <= k < faces[i].len() implies #[trigger] m.next_k(rep, k)
        != m.frep_of(i).unwrap() by {
        lemma_next_k_block(faces, m, i, 0, k);
        vstd::arithmetic::div_mod::lemma_small_mod(k, d as nat);
        assert(m.next_k(rep, k) == slot_of(faces, i, k as int));
    }
}

/// Law: reading a constructed mesh back gives the input.  Corner `j` of the
/// face built from input face `i` is the vertex slot whose entry in the
/// vertex map carries the input index `faces[i][j]`; together with the
/// boundary length above, the corner lists read back through the map are
/// exactly the input face list, so rebuilding from them reproduces the
/// mesh.
pub proof fn lemma_corner_readback(
    faces: Seq<Seq<usize>>,
    m: Douconel,
    vm: VertMap,
    fm: FaceMap,
    i: int,
    j: int,
)
    requires
        construction_ok(faces, m, vm, fm),
        pos_ok(faces, i, j),
    ensures
        ({
            let v = m.eroot(m.next_k(m.frep_of(i).unwrap() as int, j as nat));
            0 <= v < vm.entries().len() && vm.entries()[v].0 == faces[i][j]
                && vm.entries()[v].1@ == v
        }),
{
    assert(m.edges.len() == m.edges@.len());
    assert(!face_degenerate(faces[i]));
    let d = faces[i].len() as int;
    lemma_estart_bound(faces, i);
    assert(m.frep_of(i) == Some(estart(faces, i) as usize));
    let rep = m.frep_of(i).unwrap() as int;
    assert(rep == slot_of(faces, i, 0));
    lemma_next_k_block(faces, m, i, 0, j as nat);
    vstd::arithmetic::div_mod::lemma_small_mod(j as nat, d as nat);
    assert(m.next_k(rep, j as nat) == slot_of(faces, i, j));
    let s = slot_of(faces, i, j);
    let v = m.root_of(s).unwrap() as int;
    assert(vseq(faces)[v] == faces[i][j]);
    assert(vm.entries()[v].0 == vseq(faces)[v]);
}

} // verus!
