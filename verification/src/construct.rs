//! Construction of a mesh from a flat face list, together with the
//! mathematical description of what the built mesh looks like.
//!
//! The input is a sequence of faces, each a sequence of vertex indices whose
//! consecutive pairs (closed by wraparound) are the directed edges of the
//! face.  Construction allocates vertices in order of first appearance, one
//! face and one half-edge block per input face in order, links each block
//! circularly, and resolves twins by locating the oppositely directed pair.
//! Malformed input (a degenerate face, a directed pair claimed twice, a pair
//! without counterpart) aborts with a typed error and no mesh.

use crate::ids::EdgeID;
use crate::ids::FaceID;
use crate::ids::FaceMap;
use crate::ids::StructuralError;
use crate::ids::VertID;
use crate::ids::VertMap;
use crate::douconel::Douconel;
use crate::douconel::EdgeSlot;
use crate::douconel::MAX_FACE_DEGREE;
use vstd::prelude::*;

verus! {

broadcast use crate::ids::lemma_vertid_view, crate::ids::lemma_edgeid_view, crate::ids::lemma_faceid_view, crate::ids::lemma_vertmap_entries, crate::ids::lemma_facemap_entries, crate::douconel::lemma_model_counts, crate::douconel::lemma_model_edge, crate::douconel::lemma_model_reps;

/// The face list as a sequence of sequences.
pub open spec fn deep(faces: Seq<Vec<usize>>) -> Seq<Seq<usize>> {
    Seq::new(faces.len(), |i: int| faces[i]@)
}

/// A face whose index list cannot bound a polygon of this mesh: fewer than
/// three corners, more than the degree bound, or a repeated corner.
pub open spec fn face_degenerate(f: Seq<usize>) -> bool {
    ||| f.len() < 3
    ||| f.len() > MAX_FACE_DEGREE
    ||| exists|a: int, b: int| 0 <= a < b < f.len() && f[a] == f[b]
}

/// Some face of the input is degenerate.
pub open spec fn has_degenerate(faces: Seq<Seq<usize>>) -> bool {
    exists|i: int| 0 <= i < faces.len() && face_degenerate(#[trigger] faces[i])
}

/// Position (face `i`, corner `j`) exists in the input.
pub open spec fn pos_ok(faces: Seq<Seq<usize>>, i: int, j: int) -> bool {
    0 <= i < faces.len() && 0 <= j < faces[i].len()
}

/// The directed vertex pair claimed by corner `j` of face `i`.
pub open spec fn ipair(faces: Seq<Seq<usize>>, i: int, j: int) -> (usize, usize) {
    (faces[i][j], faces[i][(j + 1) % (faces[i].len() as int)])
}

/// No directed vertex pair is claimed by two corner positions.
pub open spec fn manifold(faces: Seq<Seq<usize>>) -> bool {
    forall|i1: int, j1: int, i2: int, j2: int|
        pos_ok(faces, i1, j1) && pos_ok(faces, i2, j2) && !(i1 == i2 && j1 == j2) ==> #[trigger] ipair(
            faces,
            i1,
            j1,
        ) != #[trigger] ipair(faces, i2, j2)
}

/// Some corner position claims the reverse of the directed pair `p`.
pub open spec fn has_reverse(faces: Seq<Seq<usize>>, p: (usize, usize)) -> bool {
    exists|i2: int, j2: int|
        pos_ok(faces, i2, j2) && #[trigger] ipair(faces, i2, j2) == (p.1, p.0)
}

/// Every directed vertex pair has an oppositely directed counterpart.
pub open spec fn watertight(faces: Seq<Seq<usize>>) -> bool {
    forall|i: int, j: int|
        pos_ok(faces, i, j) ==> has_reverse(faces, #[trigger] ipair(faces, i, j))
}

/// Input that construction accepts.
pub open spec fn input_ok(faces: Seq<Seq<usize>>) -> bool {
    !has_degenerate(faces) && manifold(faces) && watertight(faces)
}

/// All input indices, in input order.
pub open spec fn flat(faces: Seq<Seq<usize>>) -> Seq<usize>
    decreases faces.len(),
{
    if faces.len() == 0 {
        Seq::empty()
    } else {
        flat(faces.drop_last()) + faces.last()
    }
}

/// First-appearance deduplication.
pub open spec fn dedup(s: Seq<usize>) -> Seq<usize>
    decreases s.len(),
{
    if s.len() == 0 {
        Seq::empty()
    } else {
        let p = dedup(s.drop_last());
        if p.contains(s.last()) {
            p
        } else {
            p.push(s.last())
        }
    }
}

/// The distinct input vertex indices, in order of first appearance: input
/// index of each vertex slot.
pub open spec fn vseq(faces: Seq<Seq<usize>>) -> Seq<usize> {
    dedup(flat(faces))
}

/// First half-edge slot of face `i`: faces occupy consecutive slot blocks.
pub open spec fn estart(faces: Seq<Seq<usize>>, i: int) -> int
    decreases (if i <= 0 { 0int } else { i }),
{
    if i <= 0 {
        0
    } else {
        estart(faces, i - 1) + faces[i - 1].len()
    }
}

/// Total number of half-edges of the input.
pub open spec fn etotal(faces: Seq<Seq<usize>>) -> int {
    estart(faces, faces.len() as int)
}

/// The half-edge slot of corner `u` of face `t`.
pub open spec fn slot_of(faces: Seq<Seq<usize>>, t: int, u: int) -> int {
    estart(faces, t) + u
}

/// Deduplication keeps exactly the values of its input.
pub proof fn lemma_dedup_contains(s: Seq<usize>, x: usize)
    ensures
        dedup(s).contains(x) <==> s.contains(x),
    decreases s.len(),
{
    if s.len() == 0 {
    } else {
        lemma_dedup_contains(s.drop_last(), x);
        let p = dedup(s.drop_last());
        if p.contains(s.last()) {
            if s.contains(x) {
                let w = choose|w: int| 0 <= w < s.len() && s[w] == x;
                if w == s.len() - 1 {
                    assert(p.contains(x));
                } else {
                    assert(s.drop_last()[w] == x);
                    assert(s.drop_last().contains(x));
                }
            }
            if dedup(s).contains(x) {
                assert(s.drop_last().contains(x));
                let w = choose|w: int| 0 <= w < s.drop_last().len() && s.drop_last()[w] == x;
                assert(s[w] == x);
            }
        } else {
            if s.contains(x) {
                let w = choose|w: int| 0 <= w < s.len() && s[w] == x;
                if w == s.len() - 1 {
                    assert(dedup(s).last() == x);
                    assert(dedup(s).contains(x));
                } else {
                    assert(s.drop_last()[w] == x);
                    assert(s.drop_last().contains(x));
                    let u = choose|u: int| 0 <= u < p.len() && p[u] == x;
                    assert(dedup(s)[u] == x);
                }
            }
            if dedup(s).contains(x) {
                let u = choose|u: int| 0 <= u < dedup(s).len() && dedup(s)[u] == x;
                if u == dedup(s).len() - 1 {
                    assert(x == s.last());
                    assert(s.contains(x));
                } else {
                    assert(p[u] == x);
                    assert(p.contains(x));
                    assert(s.drop_last().contains(x));
                    let w = choose|w: int|
                        0 <= w < s.drop_last().len() && s.drop_last()[w] == x;
                    assert(s[w] == x);
                }
            }
        }
    }
}

/// Deduplication never repeats a value.
pub proof fn lemma_dedup_nodup(s: Seq<usize>)
    ensures
        forall|a: int, b: int| 0 <= a < b < dedup(s).len() ==> dedup(s)[a] != dedup(s)[b],
    decreases s.len(),
{
    if s.len() == 0 {
    } else {
        lemma_dedup_nodup(s.drop_last());
        let p = dedup(s.drop_last());
        if !p.contains(s.last()) {
            assert forall|a: int, b: int| 0 <= a < b < dedup(s).len() implies dedup(s)[a] != dedup(
                s,
            )[b] by {
                if b == dedup(s).len() - 1 {
                    assert(dedup(s)[b] == s.last());
                    assert(p[a] == dedup(s)[a]);
                    if p[a] == s.last() {
                        assert(p.contains(s.last()));
                    }
                }
            }
        }
    }
}

/// Appending one value to the flattened input extends deduplication by at
/// most that value.
pub proof fn lemma_dedup_push(s: Seq<usize>, x: usize)
    ensures
        dedup(s.push(x)) == (if dedup(s).contains(x) {
            dedup(s)
        } else {
            dedup(s).push(x)
        }),
{
    assert(s.push(x).drop_last() =~= s);
    assert(s.push(x).last() == x);
}

/// Flattening one more face appends that face's indices.
pub proof fn lemma_flat_take_step(faces: Seq<Seq<usize>>, i: int)
    requires
        0 <= i < faces.len(),
    ensures
        flat(faces.take(i + 1)) == flat(faces.take(i)) + faces[i],
{
    assert(faces.take(i + 1).drop_last() =~= faces.take(i));
    assert(faces.take(i + 1).last() == faces[i]);
}

/// Flattening the whole input is flattening all of its prefix.
pub proof fn lemma_flat_take_all(faces: Seq<Seq<usize>>)
    ensures
        flat(faces.take(faces.len() as int)) == flat(faces),
{
    assert(faces.take(faces.len() as int) =~= faces);
}

/// Every input index occurs in the flattened input.
pub proof fn lemma_flat_contains(faces: Seq<Seq<usize>>, i: int, j: int)
    requires
        pos_ok(faces, i, j),
    ensures
        flat(faces).contains(faces[i][j]),
    decreases faces.len(),
{
    if i == faces.len() - 1 {
        assert(faces.last()[j] == faces[i][j]);
        assert(flat(faces)[flat(faces.drop_last()).len() + j] == faces[i][j]);
    } else {
        lemma_flat_contains(faces.drop_last(), i, j);
        let w = choose|w: int|
            0 <= w < flat(faces.drop_last()).len() && flat(faces.drop_last())[w] == faces.drop_last()[i][j];
        assert(flat(faces)[w] == faces[i][j]);
    }
}

/// Every value of the flattened input comes from some input position.
pub proof fn lemma_flat_origin(faces: Seq<Seq<usize>>, x: usize)
    requires
        flat(faces).contains(x),
    ensures
        exists|i: int, j: int| pos_ok(faces, i, j) && faces[i][j] == x,
    decreases faces.len(),
{
    let w = choose|w: int| 0 <= w < flat(faces).len() && flat(faces)[w] == x;
    let pre = flat(faces.drop_last());
    if w < pre.len() {
        assert(pre[w] == x);
        lemma_flat_origin(faces.drop_last(), x);
        let (i, j): (int, int) = choose|i: int, j: int|
            pos_ok(faces.drop_last(), i, j) && faces.drop_last()[i][j] == x;
        assert(pos_ok(faces, i, j) && faces[i][j] == x);
    } else {
        let j = w - pre.len();
        assert(faces.last()[j] == x);
        assert(pos_ok(faces, faces.len() - 1, j) && faces[faces.len() - 1][j] == x);
    }
}

/// Face starts grow monotonically.
pub proof fn lemma_estart_monotone(faces: Seq<Seq<usize>>, a: int, b: int)
    requires
        0 <= a <= b,
    ensures
        estart(faces, a) <= estart(faces, b),
    decreases b - a,
{
    if a < b {
        lemma_estart_monotone(faces, a, b - 1);
    }
}

/// A face's slot block lies within the slots of the whole input.
pub proof fn lemma_estart_bound(faces: Seq<Seq<usize>>, i: int)
    requires
        0 <= i < faces.len(),
    ensures
        estart(faces, i) + faces[i].len() <= etotal(faces),
        0 <= estart(faces, i),
{
    lemma_estart_monotone(faces, 0, i);
    lemma_estart_monotone(faces, i + 1, faces.len() as int);
}

/// Every slot below a face-prefix boundary belongs to exactly one earlier
/// face block.
pub proof fn lemma_slot_coverage(faces: Seq<Seq<usize>>, i: int, s: int)
    requires
        0 <= i <= faces.len(),
        0 <= s < estart(faces, i),
    ensures
        exists|t: int, u: int|
            0 <= t < i && 0 <= u < faces[t].len() && s == #[trigger] slot_of(faces, t, u),
    decreases i,
{
    if i > 0 {
        if s >= estart(faces, i - 1) {
            let u = s - estart(faces, i - 1);
            assert(0 <= i - 1 < i && 0 <= u < faces[i - 1].len() && s == slot_of(faces, i - 1, u));
        } else {
            lemma_slot_coverage(faces, i - 1, s);
            let (t, u): (int, int) = choose|t: int, u: int|
                0 <= t < i - 1 && 0 <= u < faces[t].len() && s == #[trigger] slot_of(faces, t, u);
            assert(0 <= t < i && 0 <= u < faces[t].len() && s == slot_of(faces, t, u));
        }
    }
}

/// A slot determines its face block and offset uniquely.
pub proof fn lemma_slot_owner_unique(faces: Seq<Seq<usize>>, t1: int, u1: int, t2: int, u2: int)
    requires
        0 <= t1 < faces.len(),
        0 <= u1 < faces[t1].len(),
        0 <= t2 < faces.len(),
        0 <= u2 < faces[t2].len(),
        estart(faces, t1) + u1 == estart(faces, t2) + u2,
    ensures
        t1 == t2 && u1 == u2,
{
    if t1 < t2 {
        lemma_estart_monotone(faces, t1 + 1, t2);
        assert(estart(faces, t1) + u1 < estart(faces, t1 + 1));
    } else if t2 < t1 {
        lemma_estart_monotone(faces, t2 + 1, t1);
        assert(estart(faces, t2) + u2 < estart(faces, t2 + 1));
    }
}

/// The mesh has as many faces, half-edges and vertices as the input asks.
pub open spec fn mesh_counts(faces: Seq<Seq<usize>>, m: Douconel) -> bool {
    &&& m.nf() == faces.len()
    &&& m.ne() == etotal(faces)
    &&& m.nv() == vseq(faces).len()
}

/// Face `i`'s half-edges form the slot block starting at `estart(faces, i)`,
/// in corner order: corner `j`'s edge is rooted at the vertex slot standing
/// for `faces[i][j]`, lies in face `i`, and its `next` is the block's next
/// slot, wrapping around.  The face's representative is the block's first
/// slot.
pub open spec fn mesh_layout(faces: Seq<Seq<usize>>, m: Douconel) -> bool {
    &&& forall|i: int|
        0 <= i < faces.len() ==> #[trigger] m.frep_of(i) == Some(estart(faces, i) as usize)
    &&& forall|i: int, j: int|
        pos_ok(faces, i, j) ==> m.face_of(#[trigger] slot_of(faces, i, j)) == Some(i as usize)
    &&& forall|i: int, j: int|
        pos_ok(faces, i, j) ==> m.next_of(#[trigger] slot_of(faces, i, j)) == Some(
            (estart(faces, i) + (j + 1) % (faces[i].len() as int)) as usize,
        )
    &&& forall|i: int, j: int|
        pos_ok(faces, i, j) ==> {
            let r = m.root_of(#[trigger] slot_of(faces, i, j));
            r is Some && (r.unwrap() as int) < vseq(faces).len() && vseq(faces)[r.unwrap() as int]
                == faces[i][j]
        }
}

/// Every half-edge's twin is the half-edge of the oppositely directed
/// vertex pair.
pub open spec fn mesh_twins(faces: Seq<Seq<usize>>, m: Douconel) -> bool {
    forall|i: int, j: int|
        pos_ok(faces, i, j) ==> {
            &&& m.twin_of(#[trigger] slot_of(faces, i, j)) is Some
            &&& exists|i2: int, j2: int|
                pos_ok(faces, i2, j2) && #[trigger] ipair(faces, i2, j2) == (
                ipair(faces, i, j).1,
                ipair(faces, i, j).0,
                ) && m.twin_of(slot_of(faces, i, j)).unwrap() == slot_of(faces, i2, j2)
        }
}

/// Every vertex's representative is the last half-edge rooted at it.
pub open spec fn mesh_vreps(faces: Seq<Seq<usize>>, m: Douconel) -> bool {
    forall|v: int|
        0 <= v < m.nv() ==> {
            &&& (#[trigger] m.vrep_of(v)) is Some
            &&& (m.vrep_of(v).unwrap() as int) < m.ne()
            &&& m.root_of(m.vrep_of(v).unwrap() as int) == Some(v as usize)
            &&& forall|s: int|
                m.vrep_of(v).unwrap() < s < m.ne() ==> #[trigger] m.root_of(s) != Some(v as usize)
        }
}

/// The vertex map pairs the distinct input indices, in first-appearance
/// order, with the vertex slots in order.
pub open spec fn vm_matches(faces: Seq<Seq<usize>>, vm: VertMap) -> bool {
    &&& vm.entries().len() == vseq(faces).len()
    &&& forall|k: int|
        0 <= k < vm.entries().len() ==> (#[trigger] vm.entries()[k]).0 == vseq(faces)[k]
            && vm.entries()[k].1@ == k
}

/// The face map pairs input position `i` with face slot `i`.
pub open spec fn fm_matches(faces: Seq<Seq<usize>>, fm: FaceMap) -> bool {
    &&& fm.entries().len() == faces.len()
    &&& forall|i: int|
        0 <= i < fm.entries().len() ==> (#[trigger] fm.entries()[i]).0 == i && fm.entries()[i].1@
            == i
}

/// Everything construction promises of a successful build.
pub open spec fn construction_ok(
    faces: Seq<Seq<usize>>,
    m: Douconel,
    vm: VertMap,
    fm: FaceMap,
) -> bool {
    &&& input_ok(faces)
    &&& mesh_counts(faces, m)
    &&& mesh_layout(faces, m)
    &&& mesh_twins(faces, m)
    &&& mesh_vreps(faces, m)
    &&& vm_matches(faces, vm)
    &&& fm_matches(faces, fm)
}

/// Whether `v` holds `x`.
fn vec_has(v: &Vec<usize>, x: usize) -> (b: bool)
    ensures
        b == v@.contains(x),
{
    let mut k: usize = 0;
    while k < v.len()
        invariant
            k <= v@.len(),
            forall|i: int| 0 <= i < k ==> v@[i] != x,
        decreases v@.len() - k,
    {
        if v[k] == x {
            return true;
        }
        k += 1;
    }
    false
}

/// Position of `x` in `v`.
fn vec_find(v: &Vec<usize>, x: usize) -> (r: usize)
    requires
        v@.contains(x),
    ensures
        r < v@.len(),
        v@[r as int] == x,
{
    let mut k: usize = 0;
    while k < v.len()
        invariant
            k <= v@.len(),
            v@.contains(x),
            forall|i: int| 0 <= i < k ==> v@[i] != x,
        decreases v@.len() - k,
    {
        if v[k] == x {
            return k;
        }
        k += 1;
    }
    proof {
        let w = choose|w: int| 0 <= w < v@.len() && v@[w] == x;
        assert(false);
    }
    0
}

/// Position of the pair `(a, b)` in `ps`, if present.
fn pair_find(ps: &Vec<(usize, usize)>, a: usize, b: usize) -> (r: Option<usize>)
    ensures
        match r {
            Some(t) => t < ps@.len() && ps@[t as int] == (a, b),
            None => forall|s: int| 0 <= s < ps@.len() ==> ps@[s] != (a, b),
        },
{
    let mut k: usize = 0;
    while k < ps.len()
        invariant
            k <= ps@.len(),
            forall|i: int| 0 <= i < k ==> ps@[i] != (a, b),
        decreases ps@.len() - k,
    {
        if ps[k].0 == a && ps[k].1 == b {
            return Some(k);
        }
        k += 1;
    }
    None
}

/// The edge slot of corner `u` of face `t` carries the right root, face and
/// directed pair: the pair components name vertex slots whose input indices
/// are the corner and its successor.
pub(crate) open spec fn rooted_at(
    faces: Seq<Seq<usize>>,
    vs: Seq<usize>,
    es: Seq<EdgeSlot>,
    ps: Seq<(usize, usize)>,
    t: int,
    u: int,
) -> bool {
    let s = slot_of(faces, t, u);
    &&& 0 <= s < es.len()
    &&& s < ps.len()
    &&& es[s].face == Some(t as usize)
    &&& es[s].root is Some
    &&& (es[s].root.unwrap() as int) < vs.len()
    &&& vs[es[s].root.unwrap() as int] == faces[t][u]
    &&& ps[s].0 == es[s].root.unwrap()
    &&& (ps[s].1 as int) < vs.len()
    &&& vs[ps[s].1 as int] == faces[t][(u + 1) % (faces[t].len() as int)]
}

/// The edge slot of corner `u` of face `t` points to the block's next slot.
pub(crate) open spec fn block_linked_at(faces: Seq<Seq<usize>>, es: Seq<EdgeSlot>, t: int, u: int) -> bool {
    es[slot_of(faces, t, u)].next == Some(
        (estart(faces, t) + (u + 1) % (faces[t].len() as int)) as usize,
    )
}

/// All faces before `upto` have their blocks fully rooted and linked.
pub(crate) open spec fn blocks_built(
    faces: Seq<Seq<usize>>,
    vs: Seq<usize>,
    es: Seq<EdgeSlot>,
    ps: Seq<(usize, usize)>,
    upto: int,
) -> bool {
    forall|t: int, u: int|
        0 <= t < upto && 0 <= u < faces[t].len() ==> #[trigger] rooted_at(faces, vs, es, ps, t, u)
            && block_linked_at(faces, es, t, u)
}

/// No directed slot pair occurs twice.
pub(crate) open spec fn pairs_distinct(ps: Seq<(usize, usize)>) -> bool {
    forall|x: int, y: int| 0 <= x < y < ps.len() ==> ps[x] != ps[y]
}

/// The representative entry of vertex `v` is the last edge slot rooted at
/// `v`, or unset if there is none yet.
pub(crate) open spec fn vrep_track_at(vr: Seq<Option<usize>>, es: Seq<EdgeSlot>, v: usize) -> bool {
    match vr[v as int] {
        None => forall|s: int| 0 <= s < es.len() ==> (#[trigger] es[s]).root != Some(v),
        Some(r) => (r as int) < es.len() && es[r as int].root == Some(v) && (forall|s: int|
            r < s < es.len() ==> (#[trigger] es[s]).root != Some(v)),
    }
}

/// All representative entries track the last rooted edge.
pub(crate) open spec fn vreps_track(vr: Seq<Option<usize>>, es: Seq<EdgeSlot>) -> bool {
    forall|v: usize| (v as int) < vr.len() ==> #[trigger] vrep_track_at(vr, es, v)
}

/// Stepping one corner forward wraps at the face's end.
proof fn lemma_wrap_step(j: int, d: int)
    requires
        0 <= j < d,
    ensures
        (j + 1) % d == (if j + 1 < d {
            j + 1
        } else {
            0
        }),
{
    if j + 1 < d {
        vstd::arithmetic::div_mod::lemma_small_mod((j + 1) as nat, d as nat);
    } else {
        vstd::arithmetic::div_mod::lemma_mod_self_0(d);
    }
}

/// Distinct slot pairs mean no directed input pair is claimed twice.
proof fn lemma_manifold_from_pairs(
    faces: Seq<Seq<usize>>,
    vs: Seq<usize>,
    es: Seq<EdgeSlot>,
    ps: Seq<(usize, usize)>,
)
    requires
        vs == vseq(faces),
        blocks_built(faces, vs, es, ps, faces.len() as int),
        pairs_distinct(ps),
    ensures
        manifold(faces),
{
    lemma_dedup_nodup(flat(faces));
    assert forall|i1: int, j1: int, i2: int, j2: int|
        pos_ok(faces, i1, j1) && pos_ok(faces, i2, j2) && !(i1 == i2 && j1 == j2) implies #[trigger] ipair(
        faces,
        i1,
        j1,
    ) != #[trigger] ipair(faces, i2, j2) by {
        if ipair(faces, i1, j1) == ipair(faces, i2, j2) {
            assert(rooted_at(faces, vs, es, ps, i1, j1));
            assert(rooted_at(faces, vs, es, ps, i2, j2));
            let s1 = slot_of(faces, i1, j1);
            let s2 = slot_of(faces, i2, j2);
            lemma_slot_owner_unique(faces, i1, j1, i2, j2);
            assert(s1 != s2);
            // equal input pairs force equal slot pairs, because the vertex
            // sequence has no duplicates
            assert(vs[ps[s1].0 as int] == vs[ps[s2].0 as int]);
            assert(vs[ps[s1].1 as int] == vs[ps[s2].1 as int]);
            assert(ps[s1].0 == ps[s2].0);
            assert(ps[s1].1 == ps[s2].1);
            assert(ps[s1] == ps[s2]);
            if s1 < s2 {
                assert(false);
            } else {
                assert(false);
            }
        }
    }
}

/// Build the per-face edge blocks: roots, faces, circular links, directed
/// pairs, face representatives, and last-write vertex representatives.
/// Fails exactly when a directed pair is claimed twice.
fn build_blocks(faces: &Vec<Vec<usize>>, vs: &Vec<usize>) -> (r: Result<
    (Vec<EdgeSlot>, Vec<Option<usize>>, Vec<Option<usize>>, Vec<(usize, usize)>),
    StructuralError,
>)
    requires
        vs@ == vseq(deep(faces@)),
        !has_degenerate(deep(faces@)),
    ensures
        r is Ok <==> manifold(deep(faces@)),
        r matches Ok(st) ==> ({
            let es = st.0@;
            let vr = st.1@;
            let fr = st.2@;
            let ps = st.3@;
            &&& es.len() == etotal(deep(faces@))
            &&& ps.len() == es.len()
            &&& vr.len() == vs@.len()
            &&& fr.len() == faces@.len()
            &&& blocks_built(deep(faces@), vs@, es, ps, faces@.len() as int)
            &&& forall|i: int|
                0 <= i < fr.len() ==> fr[i] == Some(estart(deep(faces@), i) as usize)
            &&& forall|s: int| 0 <= s < es.len() ==> (#[trigger] es[s]).twin is None
            &&& pairs_distinct(ps)
            &&& vreps_track(vr, es)
        }),
        r matches Err(e) ==> (e matches StructuralError::NonManifold(a, b) && !manifold(
            deep(faces@),
        )),
{
    let ghost gf = deep(faces@);
    let nfaces = faces.len();
    let mut es: Vec<EdgeSlot> = Vec::new();
    let mut ps: Vec<(usize, usize)> = Vec::new();
    let mut fr: Vec<Option<usize>> = Vec::new();
    let mut vr: Vec<Option<usize>> = Vec::new();
    let nv = vs.len();
    for k in 0..nv
        invariant
            vr@.len() == k,
            forall|v: int| 0 <= v < k ==> vr@[v] is None,
    {
        vr.push(None);
    }
    proof {
        assert(vreps_track(vr@, es@));
    }
    for i in 0..nfaces
        invariant
            gf == deep(faces@),
            nfaces == faces@.len(),
            vs@ == vseq(gf),
            !has_degenerate(gf),
            es@.len() == estart(gf, i as int),
            ps@.len() == es@.len(),
            fr@.len() == i,
            vr@.len() == vs@.len(),
            blocks_built(gf, vs@, es@, ps@, i as int),
            forall|t: int| 0 <= t < i ==> fr@[t] == Some(estart(gf, t) as usize),
            forall|s: int| 0 <= s < es@.len() ==> (#[trigger] es@[s]).twin is None,
            pairs_distinct(ps@),
            vreps_track(vr@, es@),
    {
        let base = es.len();
        fr.push(Some(base));
        let d = faces[i].len();
        proof {
            assert(!face_degenerate(gf[i as int]));
        }
        for j in 0..d
            invariant
                gf == deep(faces@),
                nfaces == faces@.len(),
                i < nfaces,
                vs@ == vseq(gf),
                !has_degenerate(gf),
                !face_degenerate(gf[i as int]),
                d == gf[i as int].len(),
                base == estart(gf, i as int),
                es@.len() == base + j,
                ps@.len() == es@.len(),
                vr@.len() == vs@.len(),
                blocks_built(gf, vs@, es@, ps@, i as int),
                forall|u: int| 0 <= u < j ==> #[trigger] rooted_at(gf, vs@, es@, ps@, i as int, u),
                forall|s: int| 0 <= s < es@.len() ==> (#[trigger] es@[s]).twin is None,
                pairs_distinct(ps@),
                vreps_track(vr@, es@),
        {
            let xj = faces[i][j];
            let xn = if j + 1 < d {
                faces[i][j + 1]
            } else {
                faces[i][0]
            };
            proof {
                assert(gf[i as int] == faces@[i as int]@);
                lemma_wrap_step(j as int, d as int);
                assert(xn == gf[i as int][(j + 1) % (d as int)]);
                lemma_flat_contains(gf, i as int, j as int);
                lemma_dedup_contains(flat(gf), xj);
                lemma_flat_contains(gf, i as int, (j + 1) % (d as int));
                lemma_dedup_contains(flat(gf), xn);
            }
            let rv = vec_find(vs, xj);
            let rn = vec_find(vs, xn);
            match pair_find(&ps, rv, rn) {
                Some(prev) => {
                    proof {
                        // the earlier slot holding this pair belongs to an
                        // earlier corner position with the same directed pair
                        lemma_dedup_nodup(flat(gf));
                        let (t, u): (int, int) = if (prev as int) < base {
                            lemma_slot_coverage(gf, i as int, prev as int);
                            choose|t: int, u: int|
                                0 <= t < i && 0 <= u < gf[t].len() && prev as int
                                    == #[trigger] slot_of(gf, t, u)
                        } else {
                            (i as int, prev - base)
                        };
                        assert(rooted_at(gf, vs@, es@, ps@, t, u));
                        assert(vs@[ps@[prev as int].0 as int] == gf[t][u]);
                        assert(vs@[ps@[prev as int].1 as int] == gf[t][(u + 1) % (gf[t].len() as int)]);
                        assert(ipair(gf, t, u) == (xj, xn));
                        assert(ipair(gf, i as int, j as int) == (xj, xn));
                        assert(!(t == i as int && u == j as int));
                        assert(!manifold(gf));
                    }
                    return Err(StructuralError::NonManifold(EdgeID(prev), EdgeID(es.len())));
                },
                None => {},
            }
            let cur = es.len();
            let ghost es0 = es@;
            let ghost ps0 = ps@;
            let ghost vr0 = vr@;
            es.push(EdgeSlot { root: Some(rv), face: Some(i), next: None, twin: None });
            ps.push((rv, rn));
            vr.set(rv, Some(cur));
            proof {
                assert(rooted_at(gf, vs@, es@, ps@, i as int, j as int));
                assert forall|u: int| 0 <= u < j implies #[trigger] rooted_at(
                    gf,
                    vs@,
                    es@,
                    ps@,
                    i as int,
                    u,
                ) by {
                    assert(rooted_at(gf, vs@, es0, ps0, i as int, u));
                }
                assert forall|t: int, u: int|
                    0 <= t < i as int && 0 <= u < gf[t].len() implies #[trigger] rooted_at(
                    gf,
                    vs@,
                    es@,
                    ps@,
                    t,
                    u,
                ) && block_linked_at(gf, es@, t, u) by {
                    assert(rooted_at(gf, vs@, es0, ps0, t, u));
                    assert(block_linked_at(gf, es0, t, u));
                    assert(es@[slot_of(gf, t, u)] == es0[slot_of(gf, t, u)]);
                }
                assert forall|x: int, y: int| 0 <= x < y < ps@.len() implies ps@[x] != ps@[y] by {
                    if y == ps@.len() - 1 {
                        assert(ps@[x] == ps0[x]);
                    }
                }
                assert forall|v: usize| (v as int) < vr@.len() implies #[trigger] vrep_track_at(
                    vr@,
                    es@,
                    v,
                ) by {
                    assert(vrep_track_at(vr0, es0, v));
                    if v == rv {
                        assert(vr@[v as int] == Some(cur));
                        assert(es@[cur as int].root == Some(rv));
                    } else {
                        assert(vr@[v as int] == vr0[v as int]);
                        assert(es@[cur as int].root != Some(v));
                        match vr0[v as int] {
                            None => {
                                assert forall|s: int| 0 <= s < es@.len() implies (#[trigger] es@[s]).root
                                    != Some(v) by {
                                    if s < es0.len() {
                                        assert(es@[s] == es0[s]);
                                    }
                                }
                            },
                            Some(rr) => {
                                assert(es@[rr as int] == es0[rr as int]);
                                assert forall|s: int| rr < s < es@.len() implies (#[trigger] es@[s]).root
                                    != Some(v) by {
                                    if s < es0.len() {
                                        assert(es@[s] == es0[s]);
                                    }
                                }
                            },
                        }
                    }
                }
            }
        }
        // link every edge of the block to the next one, wrapping at the end
        for j in 0..d
            invariant
                gf == deep(faces@),
                nfaces == faces@.len(),
                i < nfaces,
                vs@ == vseq(gf),
                !has_degenerate(gf),
                !face_degenerate(gf[i as int]),
                d == gf[i as int].len(),
                base == estart(gf, i as int),
                es@.len() == base + d,
                ps@.len() == es@.len(),
                vr@.len() == vs@.len(),
                blocks_built(gf, vs@, es@, ps@, i as int),
                forall|u: int| 0 <= u < d ==> #[trigger] rooted_at(gf, vs@, es@, ps@, i as int, u),
                forall|u: int| 0 <= u < j ==> #[trigger] block_linked_at(gf, es@, i as int, u),
                forall|s: int| 0 <= s < es@.len() ==> (#[trigger] es@[s]).twin is None,
                pairs_distinct(ps@),
                vreps_track(vr@, es@),
        {
            let total = es.len();
            proof {
                assert(base + j < total);
            }
            let s = base + j;
            let nxt = if j + 1 < d {
                s + 1
            } else {
                base
            };
            let slot = es[s];
            let ghost es0 = es@;
            es.set(
                s,
                EdgeSlot { root: slot.root, face: slot.face, next: Some(nxt), twin: slot.twin },
            );
            proof {
                lemma_wrap_step(j as int, d as int);
                assert(nxt as int == estart(gf, i as int) + (j + 1) % (d as int));
                assert(block_linked_at(gf, es@, i as int, j as int));
                assert forall|u: int| 0 <= u < d implies #[trigger] rooted_at(
                    gf,
                    vs@,
                    es@,
                    ps@,
                    i as int,
                    u,
                ) by {
                    assert(rooted_at(gf, vs@, es0, ps@, i as int, u));
                    if slot_of(gf, i as int, u) != s {
                        assert(es@[slot_of(gf, i as int, u)] == es0[slot_of(gf, i as int, u)]);
                    }
                }
                assert forall|u: int| 0 <= u < j implies #[trigger] block_linked_at(
                    gf,
                    es@,
                    i as int,
                    u,
                ) by {
                    assert(block_linked_at(gf, es0, i as int, u));
                    assert(slot_of(gf, i as int, u) != s);
                }
                assert forall|t: int, u: int|
                    0 <= t < i as int && 0 <= u < gf[t].len() implies #[trigger] rooted_at(
                    gf,
                    vs@,
                    es@,
                    ps@,
                    t,
                    u,
                ) && block_linked_at(gf, es@, t, u) by {
                    assert(rooted_at(gf, vs@, es0, ps@, t, u));
                    assert(block_linked_at(gf, es0, t, u));
                    lemma_estart_monotone(gf, t + 1, i as int);
                    assert(slot_of(gf, t, u) != s);
                    assert(es@[slot_of(gf, t, u)] == es0[slot_of(gf, t, u)]);
                }
                assert forall|v: usize| (v as int) < vr@.len() implies #[trigger] vrep_track_at(
                    vr@,
                    es@,
                    v,
                ) by {
                    assert(vrep_track_at(vr@, es0, v));
                    assert(es@[s as int].root == es0[s as int].root);
                    assert forall|x: int| 0 <= x < es@.len() implies (#[trigger] es@[x]).root
                        == es0[x].root by {
                        if x != s {
                            assert(es@[x] == es0[x]);
                        }
                    }
                }
            }
        }
        proof {
            assert(es@.len() == estart(gf, i as int + 1));
            assert forall|t: int, u: int|
                0 <= t < i as int + 1 && 0 <= u < gf[t].len() implies #[trigger] rooted_at(
                gf,
                vs@,
                es@,
                ps@,
                t,
                u,
            ) && block_linked_at(gf, es@, t, u) by {
                if t == i as int {
                    assert(rooted_at(gf, vs@, es@, ps@, i as int, u));
                    assert(block_linked_at(gf, es@, i as int, u));
                } else {
                    assert(rooted_at(gf, vs@, es@, ps@, t, u));
                    assert(block_linked_at(gf, es@, t, u));
                }
            }
            assert(blocks_built(gf, vs@, es@, ps@, i as int + 1));
        }
    }
    proof {
        lemma_manifold_from_pairs(gf, vs@, es@, ps@);
    }
    Ok((es, vr, fr, ps))
}

/// The reverse of the directed slot pair at `s`.
pub(crate) open spec fn swapped(ps: Seq<(usize, usize)>, s: int) -> (usize, usize) {
    (ps[s].1, ps[s].0)
}

/// Some slot claims the reverse of the pair at `s`.
pub(crate) open spec fn has_counterpart(ps: Seq<(usize, usize)>, s: int) -> bool {
    exists|x: int| 0 <= x < ps.len() && #[trigger] ps[x] == swapped(ps, s)
}

/// Set every edge's twin to the slot claiming the reversed pair.  Fails
/// exactly when some pair has no counterpart, and changes nothing else.
fn link_twins(es: &mut Vec<EdgeSlot>, ps: &Vec<(usize, usize)>) -> (r: Result<(), EdgeID>)
    requires
        old(es)@.len() == ps@.len(),
    ensures
        final(es)@.len() == old(es)@.len(),
        forall|s: int|
            0 <= s < final(es)@.len() ==> (#[trigger] final(es)@[s]).root == old(es)@[s].root
                && final(es)@[s].face == old(es)@[s].face && final(es)@[s].next
                == old(es)@[s].next,
        r is Ok <==> (forall|s: int| 0 <= s < ps@.len() ==> #[trigger] has_counterpart(ps@, s)),
        r is Ok ==> forall|s: int|
            0 <= s < final(es)@.len() ==> (#[trigger] final(es)@[s]).twin is Some
                && (final(es)@[s].twin.unwrap() as int) < ps@.len()
                && ps@[final(es)@[s].twin.unwrap() as int] == swapped(ps@, s),
        r matches Err(e) ==> 0 <= e@ < ps@.len() && !has_counterpart(ps@, e@),
{
    let n = es.len();
    for s in 0..n
        invariant
            n == es@.len(),
            es@.len() == ps@.len(),
            ps@.len() == old(es)@.len(),
            forall|x: int|
                0 <= x < es@.len() ==> (#[trigger] es@[x]).root == old(es)@[x].root && es@[x].face
                    == old(es)@[x].face && es@[x].next == old(es)@[x].next,
            forall|x: int| 0 <= x < s ==> #[trigger] has_counterpart(ps@, x),
            forall|x: int|
                0 <= x < s ==> (#[trigger] es@[x]).twin is Some && (es@[x].twin.unwrap() as int)
                    < ps@.len() && ps@[es@[x].twin.unwrap() as int] == swapped(ps@, x),
    {
        let (a, b) = ps[s];
        match pair_find(ps, b, a) {
            None => {
                proof {
                    assert(!has_counterpart(ps@, s as int));
                }
                return Err(EdgeID(s));
            },
            Some(t) => {
                let slot = es[s];
                let ghost es0 = es@;
                es.set(
                    s,
                    EdgeSlot { root: slot.root, face: slot.face, next: slot.next, twin: Some(t) },
                );
                proof {
                    assert(ps@[t as int] == swapped(ps@, s as int));
                    assert(has_counterpart(ps@, s as int));
                    assert forall|x: int| 0 <= x < es@.len() implies (#[trigger] es@[x]).root
                        == old(es)@[x].root && es@[x].face == old(es)@[x].face && es@[x].next
                        == old(es)@[x].next by {
                        if x != s {
                            assert(es@[x] == es0[x]);
                        }
                    }
                    assert forall|x: int|
                        0 <= x < s + 1 implies (#[trigger] es@[x]).twin is Some && (es@[
                        x].twin.unwrap() as int) < ps@.len() && ps@[es@[x].twin.unwrap() as int]
                        == swapped(ps@, x) by {
                        if x < s {
                            assert(es@[x] == es0[x]);
                        }
                    }
                }
            },
        }
    }
    Ok(())
}

/// Reject any degenerate face, reporting the first one.
fn check_faces(faces: &Vec<Vec<usize>>) -> (r: Result<(), usize>)
    ensures
        r is Ok <==> !has_degenerate(deep(faces@)),
        r matches Err(i) ==> i < faces@.len() && face_degenerate(deep(faces@)[i as int]) && forall|
            t: int,
        | 0 <= t < i ==> !face_degenerate(#[trigger] deep(faces@)[t]),
    {
    let n = faces.len();
    for i in 0..n
        invariant
            n == faces@.len(),
            forall|t: int| 0 <= t < i ==> !face_degenerate(#[trigger] deep(faces@)[t]),
    {
        let d = faces[i].len();
        if d < 3 || d > MAX_FACE_DEGREE {
            proof {
                assert(face_degenerate(deep(faces@)[i as int]));
                assert(has_degenerate(deep(faces@)));
            }
            return Err(i);
        }
        for a in 0..d
            invariant
                d == faces@[i as int]@.len(),
                i < faces@.len(),
                forall|t: int| 0 <= t < i ==> !face_degenerate(#[trigger] deep(faces@)[t]),
                forall|x: int, y: int|
                    0 <= x < y < d && x < a ==> faces@[i as int]@[x] != faces@[i as int]@[y],
        {
            for b in (a + 1)..d
                invariant
                    d == faces@[i as int]@.len(),
                    i < faces@.len(),
                    a < d,
                    forall|t: int| 0 <= t < i ==> !face_degenerate(#[trigger] deep(faces@)[t]),
                    forall|y: int| a < y < b ==> faces@[i as int]@[a as int] != faces@[i as int]@[y],
            {
                if faces[i][a] == faces[i][b] {
                    proof {
                        assert(face_degenerate(deep(faces@)[i as int]));
                        assert(has_degenerate(deep(faces@)));
                    }
                    return Err(i);
                }
            }
        }
        proof {
            assert(!face_degenerate(deep(faces@)[i as int]));
        }
    }
    Ok(())
}

/// Within a face's slot block, `next` steps through the block cyclically.
pub proof fn lemma_next_k_block(faces: Seq<Seq<usize>>, m: Douconel, t: int, u: int, k: nat)
    requires
        mesh_counts(faces, m),
        mesh_layout(faces, m),
        pos_ok(faces, t, u),
        2 <= faces[t].len(),
    ensures
        m.next_k(slot_of(faces, t, u), k) == slot_of(
            faces,
            t,
            (u + k) % (faces[t].len() as int),
        ),
    decreases k,
{
    let d = faces[t].len() as int;
    let s = slot_of(faces, t, u);
    assert(m.edges.len() == m.edges@.len());
    if k == 0 {
        vstd::arithmetic::div_mod::lemma_small_mod(u as nat, d as nat);
        assert((u + k) % d == u);
    } else {
        lemma_next_k_block(faces, m, t, u, (k - 1) as nat);
        let w = (u + k - 1) % d;
        vstd::arithmetic::div_mod::lemma_mod_bound(u + k - 1, d);
        assert(pos_ok(faces, t, w));
        assert(m.next_of(slot_of(faces, t, w)) == Some(
            (estart(faces, t) + (w + 1) % d) as usize,
        ));
        vstd::arithmetic::div_mod::lemma_mod_bound(w + 1, d);
        lemma_estart_bound(faces, t);
        assert(0 <= estart(faces, t) + (w + 1) % d <= usize::MAX);
        vstd::arithmetic::div_mod::lemma_small_mod(1nat, d as nat);
        vstd::arithmetic::div_mod::lemma_add_mod_noop(u + k - 1, 1, d);
        assert((w + 1) % d == (u + k) % d);
        assert(m.next_k(s, k) == m.enext(m.next_k(s, (k - 1) as nat)));
    }
}

/// Decode: the slot pairs have reversed counterparts exactly when the input
/// is watertight.
proof fn lemma_watertight_iff(
    gf: Seq<Seq<usize>>,
    vs: Seq<usize>,
    es: Seq<EdgeSlot>,
    ps: Seq<(usize, usize)>,
)
    requires
        vs == vseq(gf),
        blocks_built(gf, vs, es, ps, gf.len() as int),
        ps.len() == etotal(gf),
    ensures
        watertight(gf) <==> (forall|s: int|
            0 <= s < ps.len() ==> #[trigger] has_counterpart(ps, s)),
{
    lemma_dedup_nodup(flat(gf));
    if watertight(gf) {
        assert forall|s: int| 0 <= s < ps.len() implies #[trigger] has_counterpart(ps, s) by {
            lemma_slot_coverage(gf, gf.len() as int, s);
            let (t, u): (int, int) = choose|t: int, u: int|
                0 <= t < gf.len() && 0 <= u < gf[t].len() && s == #[trigger] slot_of(gf, t, u);
            assert(rooted_at(gf, vs, es, ps, t, u));
            assert(has_reverse(gf, ipair(gf, t, u)));
            let (i2, j2): (int, int) = choose|i2: int, j2: int|
                pos_ok(gf, i2, j2) && #[trigger] ipair(gf, i2, j2) == (
                ipair(gf, t, u).1,
                ipair(gf, t, u).0,
                );
            let x = slot_of(gf, i2, j2);
            lemma_estart_bound(gf, i2);
            assert(rooted_at(gf, vs, es, ps, i2, j2));
            assert(vs[ps[x].0 as int] == ipair(gf, t, u).1);
            assert(vs[ps[x].1 as int] == ipair(gf, t, u).0);
            assert(vs[ps[s].0 as int] == ipair(gf, t, u).0);
            assert(vs[ps[s].1 as int] == ipair(gf, t, u).1);
            assert(ps[x].0 == ps[s].1);
            assert(ps[x].1 == ps[s].0);
            assert(ps[x] == swapped(ps, s));
        }
    }
    if forall|s: int| 0 <= s < ps.len() ==> #[trigger] has_counterpart(ps, s) {
        assert forall|i: int, j: int| pos_ok(gf, i, j) implies has_reverse(
            gf,
            #[trigger] ipair(gf, i, j),
        ) by {
            let s = slot_of(gf, i, j);
            lemma_estart_bound(gf, i);
            assert(rooted_at(gf, vs, es, ps, i, j));
            assert(has_counterpart(ps, s));
            let x = choose|x: int| 0 <= x < ps.len() && #[trigger] ps[x] == swapped(ps, s);
            lemma_slot_coverage(gf, gf.len() as int, x);
            let (i2, j2): (int, int) = choose|i2: int, j2: int|
                0 <= i2 < gf.len() && 0 <= j2 < gf[i2].len() && x == #[trigger] slot_of(gf, i2, j2);
            assert(rooted_at(gf, vs, es, ps, i2, j2));
            assert(ipair(gf, i2, j2).0 == vs[ps[x].0 as int]);
            assert(ipair(gf, i2, j2).1 == vs[ps[x].1 as int]);
            assert(ipair(gf, i2, j2) == (ipair(gf, i, j).1, ipair(gf, i, j).0));
        }
    }
}

/// From the built blocks, resolved twins and tracked representatives, every
/// promise of construction follows.
pub(crate) proof fn lemma_finish(gf: Seq<Seq<usize>>, vs: Seq<usize>, m: Douconel, ps: Seq<(usize, usize)>)
    requires
        vs == vseq(gf),
        !has_degenerate(gf),
        m.edges@.len() == etotal(gf),
        ps.len() == m.edges@.len(),
        m.verts@.len() == vs.len(),
        m.faces@.len() == gf.len(),
        blocks_built(gf, vs, m.edges@, ps, gf.len() as int),
        forall|i: int| 0 <= i < gf.len() ==> m.faces@[i] == Some(estart(gf, i) as usize),
        pairs_distinct(ps),
        vreps_track(m.verts@, m.edges@),
        forall|s: int|
            0 <= s < m.edges@.len() ==> (#[trigger] m.edges@[s]).twin is Some && (m.edges@[
            s].twin.unwrap() as int) < ps.len() && ps[m.edges@[s].twin.unwrap() as int] == swapped(
                ps,
                s,
            ),
    ensures
        mesh_counts(gf, m),
        mesh_layout(gf, m),
        mesh_twins(gf, m),
        mesh_vreps(gf, m),
        m.props_ok(),
        m.refs_ok(),
        m.inv_twin(),
        m.inv_root(),
        m.inv_face(),
        m.inv_cycle(),
        m.rep_ok(),
        m.next_injective(),
{
    lemma_dedup_nodup(flat(gf));
    let ne = etotal(gf);
    assert(m.edges.len() == m.edges@.len());
    assert(m.verts.len() == m.verts@.len());
    assert(m.faces.len() == m.faces@.len());
    assert(mesh_counts(gf, m));
    // every face is well-sized
    assert forall|t: int| 0 <= t < gf.len() implies 3 <= (#[trigger] gf[t]).len()
        <= MAX_FACE_DEGREE by {
        assert(!face_degenerate(gf[t]));
    }
    // layout
    assert forall|i: int, j: int| pos_ok(gf, i, j) implies {
        let s = #[trigger] slot_of(gf, i, j);
        &&& m.face_of(s) == Some(i as usize)
        &&& m.next_of(s) == Some((estart(gf, i) + (j + 1) % (gf[i].len() as int)) as usize)
        &&& m.root_of(s) is Some
        &&& (m.root_of(s).unwrap() as int) < vs.len()
        &&& vs[m.root_of(s).unwrap() as int] == gf[i][j]
        &&& ps[s].0 == m.root_of(s).unwrap()
        &&& (ps[s].1 as int) < vs.len()
        &&& vs[ps[s].1 as int] == gf[i][(j + 1) % (gf[i].len() as int)]
        &&& 0 <= s < ne
    } by {
        assert(rooted_at(gf, vs, m.edges@, ps, i, j));
        assert(block_linked_at(gf, m.edges@, i, j));
        lemma_estart_bound(gf, i);
    }
    assert(mesh_layout(gf, m));
    // completeness of the relations
    assert forall|e: int| 0 <= e < m.ne() implies (#[trigger] m.root_of(e)) is Some && (
    #[trigger] m.face_of(e)) is Some && (#[trigger] m.next_of(e)) is Some && (
    #[trigger] m.twin_of(e)) is Some by {
        lemma_slot_coverage(gf, gf.len() as int, e);
        let (t, u): (int, int) = choose|t: int, u: int|
            0 <= t < gf.len() && 0 <= u < gf[t].len() && e == #[trigger] slot_of(gf, t, u);
        assert(rooted_at(gf, vs, m.edges@, ps, t, u));
        assert(block_linked_at(gf, m.edges@, t, u));
    }
    // representatives: every vertex has one, and it is the last edge rooted
    // there
    assert forall|v: int| 0 <= v < m.nv() implies (#[trigger] m.vrep_of(v)) is Some && (m.vrep_of(
        v,
    ).unwrap() as int) < m.ne() && m.root_of(m.vrep_of(v).unwrap() as int) == Some(v as usize) && (
    forall|s: int|
        m.vrep_of(v).unwrap() < s < m.ne() ==> #[trigger] m.root_of(s) != Some(v as usize)) by {
        assert(vrep_track_at(m.verts@, m.edges@, v as usize));
        match m.verts@[v] {
            None => {
                lemma_dedup_contains(flat(gf), vs[v]);
                assert(vs.contains(vs[v]));
                lemma_flat_origin(gf, vs[v]);
                let (i, j): (int, int) = choose|i: int, j: int|
                    pos_ok(gf, i, j) && gf[i][j] == vs[v];
                assert(rooted_at(gf, vs, m.edges@, ps, i, j));
                let s = slot_of(gf, i, j);
                assert(vs[m.edges@[s].root.unwrap() as int] == vs[v]);
                assert(m.edges@[s].root.unwrap() as int == v);
                assert(m.edges@[s].root == Some(v as usize));
                assert(false);
            },
            Some(r) => {
                assert forall|s: int| r < s < m.ne() implies #[trigger] m.root_of(s) != Some(
                    v as usize,
                ) by {
                    assert((m.edges@[s]).root != Some(v as usize));
                }
            },
        }
    }
    assert(mesh_vreps(gf, m));
    assert(m.props_ok());
    // referential integrity
    assert forall|e: int| 0 <= e < m.ne() implies (#[trigger] m.root_of(e)).unwrap() < m.nv() && (
    #[trigger] m.face_of(e)).unwrap() < m.nf() && (#[trigger] m.next_of(e)).unwrap() < m.ne() && (
    #[trigger] m.twin_of(e)).unwrap() < m.ne() by {
        lemma_slot_coverage(gf, gf.len() as int, e);
        let (t, u): (int, int) = choose|t: int, u: int|
            0 <= t < gf.len() && 0 <= u < gf[t].len() && e == #[trigger] slot_of(gf, t, u);
        let d = gf[t].len() as int;
        vstd::arithmetic::div_mod::lemma_mod_bound(u + 1, d);
        lemma_estart_bound(gf, t);
        assert(0 <= estart(gf, t) + (u + 1) % d < ne);
        assert(m.next_of(e).unwrap() as int == estart(gf, t) + (u + 1) % d);
    }
    assert forall|f: int| 0 <= f < m.nf() implies (#[trigger] m.frep_of(f)).unwrap() < m.ne() by {
        lemma_estart_bound(gf, f);
        assert(pos_ok(gf, f, 0));
    }
    assert(m.refs_ok());
    // the twin relation is an involution
    assert forall|e: int| 0 <= e < m.ne() implies m.etwin(#[trigger] m.etwin(e)) == e by {
        let x = m.edges@[e].twin.unwrap() as int;
        let y = m.edges@[x].twin.unwrap() as int;
        assert(ps[y] == swapped(ps, x));
        assert(ps[x] == swapped(ps, e));
        assert(ps[y] == ps[e]);
        if y < e {
            assert(false);
        } else if e < y {
            assert(false);
        }
    }
    // the root after following twin-then-next
    assert forall|t: int, u: int| pos_ok(gf, t, u) implies m.root_of(
        m.enext(#[trigger] slot_of(gf, t, u)),
    ) == Some(ps[slot_of(gf, t, u)].1) by {
        let d = gf[t].len() as int;
        let w = (u + 1) % d;
        vstd::arithmetic::div_mod::lemma_mod_bound(u + 1, d);
        assert(pos_ok(gf, t, w));
        assert(rooted_at(gf, vs, m.edges@, ps, t, w));
        assert(m.enext(slot_of(gf, t, u)) == slot_of(gf, t, w));
        assert(vs[m.root_of(slot_of(gf, t, w)).unwrap() as int] == gf[t][w]);
        assert(rooted_at(gf, vs, m.edges@, ps, t, u));
        assert(vs[ps[slot_of(gf, t, u)].1 as int] == gf[t][w]);
        assert(m.root_of(slot_of(gf, t, w)).unwrap() == ps[slot_of(gf, t, u)].1);
    }
    assert forall|e: int| 0 <= e < m.ne() implies m.eroot(m.enext(#[trigger] m.etwin(e)))
        == m.eroot(e) by {
        lemma_slot_coverage(gf, gf.len() as int, e);
        let (t, u): (int, int) = choose|t: int, u: int|
            0 <= t < gf.len() && 0 <= u < gf[t].len() && e == #[trigger] slot_of(gf, t, u);
        assert(rooted_at(gf, vs, m.edges@, ps, t, u));
        assert(m.root_of(e) == Some(ps[e].0));
        let x = m.edges@[e].twin.unwrap() as int;
        assert(ps[x] == swapped(ps, e));
        lemma_slot_coverage(gf, gf.len() as int, x);
        let (t2, u2): (int, int) = choose|t2: int, u2: int|
            0 <= t2 < gf.len() && 0 <= u2 < gf[t2].len() && x == #[trigger] slot_of(gf, t2, u2);
        assert(m.root_of(m.enext(slot_of(gf, t2, u2))) == Some(ps[x].1));
        assert(ps[x].1 == ps[e].0);
    }
    // next stays within the face
    assert forall|e: int| 0 <= e < m.ne() implies m.eface(#[trigger] m.enext(e)) == m.eface(e) by {
        lemma_slot_coverage(gf, gf.len() as int, e);
        let (t, u): (int, int) = choose|t: int, u: int|
            0 <= t < gf.len() && 0 <= u < gf[t].len() && e == #[trigger] slot_of(gf, t, u);
        let d = gf[t].len() as int;
        let w = (u + 1) % d;
        vstd::arithmetic::div_mod::lemma_mod_bound(u + 1, d);
        assert(pos_ok(gf, t, w));
        assert(m.enext(e) == slot_of(gf, t, w));
        assert(m.face_of(slot_of(gf, t, w)) == Some(t as usize));
        assert(m.face_of(e) == Some(t as usize));
    }
    // face loops close within the degree bound
    assert forall|e: int| 0 <= e < m.ne() implies #[trigger] m.returns_within(
        e,
        MAX_FACE_DEGREE as nat,
    ) by {
        lemma_slot_coverage(gf, gf.len() as int, e);
        let (t, u): (int, int) = choose|t: int, u: int|
            0 <= t < gf.len() && 0 <= u < gf[t].len() && e == #[trigger] slot_of(gf, t, u);
        let d = gf[t].len() as int;
        lemma_next_k_block(gf, m, t, u, d as nat);
        vstd::arithmetic::div_mod::lemma_small_mod(u as nat, d as nat);
        vstd::arithmetic::div_mod::lemma_mod_self_0(d);
        vstd::arithmetic::div_mod::lemma_add_mod_noop(u, d, d);
        assert((u + d) % d == u);
        assert(m.next_k(e, d as nat) == e);
        assert(1 <= d as nat <= MAX_FACE_DEGREE as nat && m.next_k(e, d as nat) == e);
    }
    // representatives point back
    assert forall|v: int| 0 <= v < m.nv() implies m.eroot(
        #[trigger] m.vrep_of(v).unwrap() as int,
    ) == v by {}
    assert forall|f: int| 0 <= f < m.nf() implies m.eface(
        #[trigger] m.frep_of(f).unwrap() as int,
    ) == f by {
        assert(pos_ok(gf, f, 0));
        assert(m.face_of(slot_of(gf, f, 0)) == Some(f as usize));
        assert(m.frep_of(f).unwrap() as int == slot_of(gf, f, 0));
    }
    // next never merges two edges
    assert forall|a: int, b: int|
        0 <= a < m.ne() && 0 <= b < m.ne() && #[trigger] m.enext(a) == #[trigger] m.enext(
            b,
        ) implies a == b by {
        lemma_slot_coverage(gf, gf.len() as int, a);
        lemma_slot_coverage(gf, gf.len() as int, b);
        let (t1, u1): (int, int) = choose|t1: int, u1: int|
            0 <= t1 < gf.len() && 0 <= u1 < gf[t1].len() && a == #[trigger] slot_of(gf, t1, u1);
        let (t2, u2): (int, int) = choose|t2: int, u2: int|
            0 <= t2 < gf.len() && 0 <= u2 < gf[t2].len() && b == #[trigger] slot_of(gf, t2, u2);
        let d1 = gf[t1].len() as int;
        let d2 = gf[t2].len() as int;
        let w1 = (u1 + 1) % d1;
        let w2 = (u2 + 1) % d2;
        vstd::arithmetic::div_mod::lemma_mod_bound(u1 + 1, d1);
        vstd::arithmetic::div_mod::lemma_mod_bound(u2 + 1, d2);
        assert(m.enext(a) == slot_of(gf, t1, w1));
        assert(m.enext(b) == slot_of(gf, t2, w2));
        lemma_slot_owner_unique(gf, t1, w1, t2, w2);
        lemma_wrap_step(u1, d1);
        lemma_wrap_step(u2, d2);
    }
    // twins pair up the reversed input pairs
    assert forall|i: int, j: int| pos_ok(gf, i, j) implies {
        &&& m.twin_of(#[trigger] slot_of(gf, i, j)) is Some
        &&& exists|i2: int, j2: int|
            pos_ok(gf, i2, j2) && #[trigger] ipair(gf, i2, j2) == (
            ipair(gf, i, j).1,
            ipair(gf, i, j).0,
            ) && m.twin_of(slot_of(gf, i, j)).unwrap() == slot_of(gf, i2, j2)
    } by {
        let s = slot_of(gf, i, j);
        lemma_estart_bound(gf, i);
        let x = m.edges@[s].twin.unwrap() as int;
        assert(ps[x] == swapped(ps, s));
        lemma_slot_coverage(gf, gf.len() as int, x);
        let (i2, j2): (int, int) = choose|i2: int, j2: int|
            0 <= i2 < gf.len() && 0 <= j2 < gf[i2].len() && x == #[trigger] slot_of(gf, i2, j2);
        assert(rooted_at(gf, vs, m.edges@, ps, i2, j2));
        assert(rooted_at(gf, vs, m.edges@, ps, i, j));
        assert(ipair(gf, i2, j2).0 == vs[ps[x].0 as int]);
        assert(ipair(gf, i2, j2).1 == vs[ps[x].1 as int]);
        assert(ipair(gf, i, j).0 == vs[ps[s].0 as int]);
        assert(ipair(gf, i, j).1 == vs[ps[s].1 as int]);
        assert(ipair(gf, i2, j2) == (ipair(gf, i, j).1, ipair(gf, i, j).0));
    }
    assert(mesh_twins(gf, m));
}

/// Collect the distinct input vertex indices in first-appearance order.
fn collect_verts(faces: &Vec<Vec<usize>>) -> (r: Vec<usize>)
    ensures
        r@ == vseq(deep(faces@)),
{
    let mut out: Vec<usize> = Vec::new();
    let n = faces.len();
    for i in 0..n
        invariant
            n == faces@.len(),
            out@ == dedup(flat(deep(faces@).take(i as int))),
    {
        let d = faces[i].len();
        for j in 0..d
            invariant
                n == faces@.len(),
                i < n,
                d == faces@[i as int]@.len(),
                out@ == dedup(flat(deep(faces@).take(i as int)) + deep(faces@)[i as int].take(j as int)),
        {
            let x = faces[i][j];
            let ghost pre = flat(deep(faces@).take(i as int)) + deep(faces@)[i as int].take(j as int);
            proof {
                assert(pre.push(x) =~= flat(deep(faces@).take(i as int)) + deep(faces@)[i as int].take(
                    j + 1,
                ));
                lemma_dedup_push(pre, x);
            }
            if !vec_has(&out, x) {
                out.push(x);
            }
        }
        proof {
            assert(deep(faces@)[i as int].take(d as int) =~= deep(faces@)[i as int]);
            lemma_flat_take_step(deep(faces@), i as int);
        }
    }
    proof {
        lemma_flat_take_all(deep(faces@));
    }
    out
}

impl Douconel {
    /// Build a fully linked mesh from a face list, where each face is the
    /// cyclic list of its vertex indices.  On success the mesh satisfies
    /// every structural invariant and matches the input exactly, face by
    /// face and corner by corner; the two maps translate between the
    /// caller's indices and the allocated handles.  Malformed input is
    /// rejected: a degenerate face first, then a directed pair claimed
    /// twice, then a pair without counterpart.  No partial mesh is ever
    /// returned.
    pub fn from_faces(faces: &Vec<Vec<usize>>) -> (r: Result<
        (Douconel, VertMap, FaceMap),
        StructuralError,
    >)
        ensures
            r is Ok <==> input_ok(deep(faces@)),
            r matches Ok(t) ==> construction_ok(deep(faces@), t.0, t.1, t.2) && t.0.wf()
                && t.0.rep_ok() && t.0.next_injective() && t.1.wf() && t.2.wf(),
            r matches Err(err) ==> match err {
                StructuralError::DegenerateFace(i) => (i as int) < faces@.len()
                    && face_degenerate(deep(faces@)[i as int]) && (forall|t: int|
                    0 <= t < i ==> !face_degenerate(#[trigger] deep(faces@)[t])),
                StructuralError::NonManifold(a, b) => !has_degenerate(deep(faces@)) && !manifold(
                    deep(faces@),
                ),
                StructuralError::NonWatertight(e) => !has_degenerate(deep(faces@)) && manifold(
                    deep(faces@),
                ) && !watertight(deep(faces@)),
            },
    {
        let ghost gf = deep(faces@);
        if let Err(i) = check_faces(faces) {
            return Err(StructuralError::DegenerateFace(i));
        }
        let vs = collect_verts(faces);
        let built = build_blocks(faces, &vs);
        let (mut es, vr, fr, ps) = match built {
            Ok(st) => st,
            Err(e) => {
                return Err(e);
            },
        };
        let ghost es1 = es@;
        let res = link_twins(&mut es, &ps);
        if let Err(e) = res {
            proof {
                lemma_watertight_iff(gf, vs@, es1, ps@);
            }
            return Err(StructuralError::NonWatertight(e));
        }
        let mut vm_pairs: Vec<(usize, VertID)> = Vec::new();
        let nv = vs.len();
        for k in 0..nv
            invariant
                vm_pairs@.len() == k,
                nv == vs@.len(),
                forall|x: int|
                    0 <= x < k ==> (#[trigger] vm_pairs@[x]).0 == vs@[x] && vm_pairs@[x].1@ == x,
        {
            vm_pairs.push((vs[k], VertID(k)));
        }
        let mut fm_pairs: Vec<(usize, FaceID)> = Vec::new();
        let nfaces = faces.len();
        for i in 0..nfaces
            invariant
                fm_pairs@.len() == i,
                forall|x: int|
                    0 <= x < i ==> (#[trigger] fm_pairs@[x]).0 == x && fm_pairs@[x].1@ == x,
        {
            fm_pairs.push((i, FaceID(i)));
        }
        let m = Douconel { verts: vr, edges: es, faces: fr };
        let vm = VertMap { pairs: vm_pairs };
        let fm = FaceMap { pairs: fm_pairs };
        proof {
            // the twin pass changed no root, face or next entry, so the
            // built blocks carry over to the final edge arena
            assert forall|t: int, u: int|
                0 <= t < gf.len() && 0 <= u < gf[t].len() implies #[trigger] rooted_at(
                gf,
                vs@,
                m.edges@,
                ps@,
                t,
                u,
            ) && block_linked_at(gf, m.edges@, t, u) by {
                assert(rooted_at(gf, vs@, es1, ps@, t, u));
                assert(block_linked_at(gf, es1, t, u));
                let s = slot_of(gf, t, u);
                assert(m.edges@[s].root == es1[s].root && m.edges@[s].face == es1[s].face
                    && m.edges@[s].next == es1[s].next);
            }
            assert forall|v: usize| (v as int) < m.verts@.len() implies #[trigger] vrep_track_at(
                m.verts@,
                m.edges@,
                v,
            ) by {
                assert(vrep_track_at(m.verts@, es1, v));
                match m.verts@[v as int] {
                    None => {
                        assert forall|s: int|
                            0 <= s < m.edges@.len() implies (#[trigger] m.edges@[s]).root != Some(
                            v,
                        ) by {
                            assert((es1[s]).root != Some(v));
                            assert(m.edges@[s].root == es1[s].root);
                        }
                    },
                    Some(r) => {
                        assert((es1[r as int]).root == Some(v));
                        assert(m.edges@[r as int].root == es1[r as int].root);
                        assert forall|s: int|
                            r < s < m.edges@.len() implies (#[trigger] m.edges@[s]).root != Some(
                            v,
                        ) by {
                            assert((es1[s]).root != Some(v));
                            assert(m.edges@[s].root == es1[s].root);
                        }
                    },
                }
            }
            lemma_finish(gf, vs@, m, ps@);
            lemma_watertight_iff(gf, vs@, es1, ps@);
            lemma_dedup_nodup(flat(gf));
            assert forall|x: int, y: int|
                0 <= x < y < vm.entries().len() implies vm.entries()[x].0 != vm.entries()[y].0
                    && vm.entries()[x].1 != vm.entries()[y].1 by {
                assert(vm.entries()[x].1@ == x && vm.entries()[y].1@ == y);
            }
            assert forall|x: int, y: int|
                0 <= x < y < fm.entries().len() implies fm.entries()[x].0 != fm.entries()[y].0
                    && fm.entries()[x].1 != fm.entries()[y].1 by {
                assert(fm.entries()[x].1@ == x && fm.entries()[y].1@ == y);
            }
            assert(input_ok(gf));
            assert(construction_ok(gf, m, vm, fm));
            assert(m.wf());
        }
        Ok((m, vm, fm))
    }
}

} // verus!
