//! The half-edge mesh itself: arena-backed relation storage, checked
//! accessors, and the three verification passes.
//!
//! Each half-edge slot stores its four relations (root vertex, incident face,
//! next edge of the same face loop, twin edge); each vertex and face slot
//! stores one representative outgoing / boundary half-edge.  All relations
//! are stored as optional slot indices, so a mesh value can also represent a
//! partially built or corrupted structure; the verification passes decide,
//! with an exact contract, whether the structure is sound.

use crate::ids::EdgeID;
use crate::ids::FaceID;
use crate::ids::IntegrityError;
use crate::ids::InvariantKind;
use crate::ids::Relation;
use crate::ids::VertID;
use vstd::prelude::*;

verus! {

broadcast use crate::ids::lemma_vertid_view, crate::ids::lemma_edgeid_view, crate::ids::lemma_faceid_view;

/// Bound on the `next` walk used by the invariant check: a face loop must
/// close within this many steps.  A corruption guard, not a semantic limit.
pub const MAX_FACE_DEGREE: usize = 100;

/// One half-edge slot: the four topological relations, each possibly unset.
#[derive(Clone, Copy, Debug)]
pub(crate) struct EdgeSlot {
    pub(crate) root: Option<usize>,
    pub(crate) face: Option<usize>,
    pub(crate) next: Option<usize>,
    pub(crate) twin: Option<usize>,
}

/// The doubly connected edge list: a polygonal mesh represented through
/// per-half-edge relations, addressed by opaque handles.
#[derive(Clone, Debug)]
pub struct Douconel {
    /// Per vertex: its representative outgoing half-edge.
    pub(crate) verts: Vec<Option<usize>>,
    /// Per half-edge: its relations.
    pub(crate) edges: Vec<EdgeSlot>,
    /// Per face: its representative boundary half-edge.
    pub(crate) faces: Vec<Option<usize>>,
}

/// Inside the crate, the mesh's counts are its arenas' lengths.
pub(crate) broadcast proof fn lemma_model_counts(m: Douconel)
    ensures
        #![trigger m.nv()]
        #![trigger m.ne()]
        #![trigger m.nf()]
        m.nv() == m.verts@.len(),
        m.ne() == m.edges@.len(),
        m.nf() == m.faces@.len(),
{
}

/// Inside the crate, the stored relations are the slot fields.
pub(crate) broadcast proof fn lemma_model_edge(m: Douconel, e: int)
    ensures
        #![trigger m.root_of(e)]
        #![trigger m.face_of(e)]
        #![trigger m.next_of(e)]
        #![trigger m.twin_of(e)]
        m.root_of(e) == m.edges@[e].root,
        m.face_of(e) == m.edges@[e].face,
        m.next_of(e) == m.edges@[e].next,
        m.twin_of(e) == m.edges@[e].twin,
{
}

/// Inside the crate, the stored representatives are the slot entries.
pub(crate) broadcast proof fn lemma_model_reps(m: Douconel, i: int)
    ensures
        #![trigger m.vrep_of(i)]
        #![trigger m.frep_of(i)]
        m.vrep_of(i) == m.verts@[i],
        m.frep_of(i) == m.faces@[i],
{
}

impl Douconel {
    /// Number of vertices.
    pub closed spec fn nv(self) -> nat {
        self.verts@.len()
    }

    /// Number of half-edges.
    pub closed spec fn ne(self) -> nat {
        self.edges@.len()
    }

    /// Number of faces.
    pub closed spec fn nf(self) -> nat {
        self.faces@.len()
    }

    /// Stored root vertex of half-edge `e`.
    pub closed spec fn root_of(self, e: int) -> Option<usize> {
        self.edges@[e].root
    }

    /// Stored incident face of half-edge `e`.
    pub closed spec fn face_of(self, e: int) -> Option<usize> {
        self.edges@[e].face
    }

    /// Stored next half-edge of half-edge `e`.
    pub closed spec fn next_of(self, e: int) -> Option<usize> {
        self.edges@[e].next
    }

    /// Stored twin half-edge of half-edge `e`.
    pub closed spec fn twin_of(self, e: int) -> Option<usize> {
        self.edges@[e].twin
    }

    /// Stored representative outgoing half-edge of vertex `v`.
    pub closed spec fn vrep_of(self, v: int) -> Option<usize> {
        self.verts@[v]
    }

    /// Stored representative boundary half-edge of face `f`.
    pub closed spec fn frep_of(self, f: int) -> Option<usize> {
        self.faces@[f]
    }

    /// Root of `e`, assuming it is set.
    pub open spec fn eroot(self, e: int) -> int {
        self.root_of(e).unwrap() as int
    }

    /// Face of `e`, assuming it is set.
    pub open spec fn eface(self, e: int) -> int {
        self.face_of(e).unwrap() as int
    }

    /// Next of `e`, assuming it is set.
    pub open spec fn enext(self, e: int) -> int {
        self.next_of(e).unwrap() as int
    }

    /// Twin of `e`, assuming it is set.
    pub open spec fn etwin(self, e: int) -> int {
        self.twin_of(e).unwrap() as int
    }

    /// `next` iterated `k` times from `e`.
    pub open spec fn next_k(self, e: int, k: nat) -> int
        decreases k,
    {
        if k == 0 {
            e
        } else {
            self.enext(self.next_k(e, (k - 1) as nat))
        }
    }

    /// Every element has every relation it needs: the four per-edge relations
    /// and one representative per vertex and per face.
    pub open spec fn props_ok(self) -> bool {
        &&& forall|e: int| 0 <= e < self.ne() ==> (#[trigger] self.root_of(e)) is Some
        &&& forall|e: int| 0 <= e < self.ne() ==> (#[trigger] self.face_of(e)) is Some
        &&& forall|e: int| 0 <= e < self.ne() ==> (#[trigger] self.next_of(e)) is Some
        &&& forall|e: int| 0 <= e < self.ne() ==> (#[trigger] self.twin_of(e)) is Some
        &&& forall|v: int| 0 <= v < self.nv() ==> (#[trigger] self.vrep_of(v)) is Some
        &&& forall|f: int| 0 <= f < self.nf() ==> (#[trigger] self.frep_of(f)) is Some
    }

    /// Every stored relation target refers to a live element.
    pub open spec fn refs_ok(self) -> bool {
        &&& forall|e: int|
            0 <= e < self.ne() && (#[trigger] self.root_of(e)) is Some ==> self.root_of(e).unwrap()
                < self.nv()
        &&& forall|e: int|
            0 <= e < self.ne() && (#[trigger] self.face_of(e)) is Some ==> self.face_of(e).unwrap()
                < self.nf()
        &&& forall|e: int|
            0 <= e < self.ne() && (#[trigger] self.next_of(e)) is Some ==> self.next_of(e).unwrap()
                < self.ne()
        &&& forall|e: int|
            0 <= e < self.ne() && (#[trigger] self.twin_of(e)) is Some ==> self.twin_of(e).unwrap()
                < self.ne()
        &&& forall|v: int|
            0 <= v < self.nv() && (#[trigger] self.vrep_of(v)) is Some ==> self.vrep_of(v).unwrap()
                < self.ne()
        &&& forall|f: int|
            0 <= f < self.nf() && (#[trigger] self.frep_of(f)) is Some ==> self.frep_of(f).unwrap()
                < self.ne()
    }

    /// Invariant: the twin relation is an involution.
    pub open spec fn inv_twin(self) -> bool {
        forall|e: int| 0 <= e < self.ne() ==> self.etwin(#[trigger] self.etwin(e)) == e
    }

    /// Invariant: walking twin-then-next stays at the same root vertex.
    pub open spec fn inv_root(self) -> bool {
        forall|e: int|
            0 <= e < self.ne() ==> self.eroot(self.enext(#[trigger] self.etwin(e))) == self.eroot(e)
    }

    /// Invariant: `next` stays within the face of its edge.
    pub open spec fn inv_face(self) -> bool {
        forall|e: int| 0 <= e < self.ne() ==> self.eface(#[trigger] self.enext(e)) == self.eface(e)
    }

    /// Repeated `next` from `e` comes back to `e` within `bound` steps.
    pub open spec fn returns_within(self, e: int, bound: nat) -> bool {
        exists|k: nat| 1 <= k <= bound && self.next_k(e, k) == e
    }

    /// Invariant: every face loop closes within the degree bound.
    pub open spec fn inv_cycle(self) -> bool {
        forall|e: int| 0 <= e < self.ne() ==> self.returns_within(e, MAX_FACE_DEGREE as nat)
    }

    /// A structurally sound mesh: complete, referentially intact, and
    /// satisfying the four half-edge invariants.
    pub open spec fn wf(self) -> bool {
        self.props_ok() && self.refs_ok() && self.inv_twin() && self.inv_root() && self.inv_face()
            && self.inv_cycle()
    }

    /// Representatives point back: the representative of a vertex is rooted
    /// at that vertex, the representative of a face lies on that face.
    pub open spec fn rep_ok(self) -> bool {
        &&& forall|v: int|
            0 <= v < self.nv() ==> self.eroot(#[trigger] self.vrep_of(v).unwrap() as int) == v
        &&& forall|f: int|
            0 <= f < self.nf() ==> self.eface(#[trigger] self.frep_of(f).unwrap() as int) == f
    }

    /// The `next` relation never merges two edges into one; together with
    /// `wf` this makes each vertex fan a clean cycle.
    pub open spec fn next_injective(self) -> bool {
        forall|a: int, b: int|
            0 <= a < self.ne() && 0 <= b < self.ne() && #[trigger] self.enext(a)
                == #[trigger] self.enext(b) ==> a == b
    }

    /// An empty mesh.
    pub fn new() -> (r: Self)
        ensures
            r.nv() == 0,
            r.ne() == 0,
            r.nf() == 0,
            r.wf(),
            r.rep_ok(),
            r.next_injective(),
    {
        Self { verts: Vec::new(), edges: Vec::new(), faces: Vec::new() }
    }

    /// Number of vertices in the mesh.
    pub fn nr_verts(&self) -> (r: usize)
        ensures
            r == self.nv(),
    {
        self.verts.len()
    }

    /// Number of half-edges in the mesh.
    pub fn nr_edges(&self) -> (r: usize)
        ensures
            r == self.ne(),
    {
        self.edges.len()
    }

    /// Number of faces in the mesh.
    pub fn nr_faces(&self) -> (r: usize)
        ensures
            r == self.nf(),
    {
        self.faces.len()
    }

    /// Handles of all vertices, in slot order.
    pub fn vert_handles(&self) -> (r: Vec<VertID>)
        ensures
            r@.len() == self.nv(),
            forall|i: int| 0 <= i < r@.len() ==> (#[trigger] r@[i])@ == i,
    {
        let mut out: Vec<VertID> = Vec::new();
        let n = self.verts.len();
        for k in 0..n
            invariant
                out@.len() == k,
                forall|i: int| 0 <= i < k ==> (#[trigger] out@[i])@ == i,
        {
            out.push(VertID(k));
        }
        out
    }

    /// Handles of all half-edges, in slot order.
    pub fn edge_handles(&self) -> (r: Vec<EdgeID>)
        ensures
            r@.len() == self.ne(),
            forall|i: int| 0 <= i < r@.len() ==> (#[trigger] r@[i])@ == i,
    {
        let mut out: Vec<EdgeID> = Vec::new();
        let n = self.edges.len();
        for k in 0..n
            invariant
                out@.len() == k,
                forall|i: int| 0 <= i < k ==> (#[trigger] out@[i])@ == i,
        {
            out.push(EdgeID(k));
        }
        out
    }

    /// Handles of all faces, in slot order.
    pub fn face_handles(&self) -> (r: Vec<FaceID>)
        ensures
            r@.len() == self.nf(),
            forall|i: int| 0 <= i < r@.len() ==> (#[trigger] r@[i])@ == i,
    {
        let mut out: Vec<FaceID> = Vec::new();
        let n = self.faces.len();
        for k in 0..n
            invariant
                out@.len() == k,
                forall|i: int| 0 <= i < k ==> (#[trigger] out@[i])@ == i,
        {
            out.push(FaceID(k));
        }
        out
    }

    /// Root vertex of the given half-edge: fails on a dead handle, a missing
    /// relation, or a dead stored target.
    pub fn root(&self, id: EdgeID) -> (r: Result<VertID, IntegrityError>)
        ensures
            r is Ok <==> id@ < self.ne() && self.root_of(id@) is Some && self.root_of(id@).unwrap()
                < self.nv(),
            r matches Ok(v) ==> v@ == self.root_of(id@).unwrap(),
            r matches Err(err) ==> match err {
                IntegrityError::DanglingHandle(rel, h) => rel == Relation::Root && h == id@ && (id@
                    >= self.ne() || (self.root_of(id@) is Some && self.root_of(id@).unwrap()
                    >= self.nv())),
                IntegrityError::MissingRelation(rel, h) => rel == Relation::Root && h == id@ && id@
                    < self.ne() && self.root_of(id@) is None,
                _ => false,
            },
    {
        if id.0 >= self.edges.len() {
            return Err(IntegrityError::DanglingHandle(Relation::Root, id.0));
        }
        match self.edges[id.0].root {
            None => Err(IntegrityError::MissingRelation(Relation::Root, id.0)),
            Some(v) => {
                if v >= self.verts.len() {
                    Err(IntegrityError::DanglingHandle(Relation::Root, id.0))
                } else {
                    Ok(VertID(v))
                }
            },
        }
    }

    /// Incident face of the given half-edge.
    pub fn face(&self, id: EdgeID) -> (r: Result<FaceID, IntegrityError>)
        ensures
            r is Ok <==> id@ < self.ne() && self.face_of(id@) is Some && self.face_of(id@).unwrap()
                < self.nf(),
            r matches Ok(f) ==> f@ == self.face_of(id@).unwrap(),
            r matches Err(err) ==> match err {
                IntegrityError::DanglingHandle(rel, h) => rel == Relation::Face && h == id@ && (id@
                    >= self.ne() || (self.face_of(id@) is Some && self.face_of(id@).unwrap()
                    >= self.nf())),
                IntegrityError::MissingRelation(rel, h) => rel == Relation::Face && h == id@ && id@
                    < self.ne() && self.face_of(id@) is None,
                _ => false,
            },
    {
        if id.0 >= self.edges.len() {
            return Err(IntegrityError::DanglingHandle(Relation::Face, id.0));
        }
        match self.edges[id.0].face {
            None => Err(IntegrityError::MissingRelation(Relation::Face, id.0)),
            Some(f) => {
                if f >= self.faces.len() {
                    Err(IntegrityError::DanglingHandle(Relation::Face, id.0))
                } else {
                    Ok(FaceID(f))
                }
            },
        }
    }

    /// Next half-edge within the face loop of the given half-edge.
    pub fn next(&self, id: EdgeID) -> (r: Result<EdgeID, IntegrityError>)
        ensures
            r is Ok <==> id@ < self.ne() && self.next_of(id@) is Some && self.next_of(id@).unwrap()
                < self.ne(),
            r matches Ok(n) ==> n@ == self.next_of(id@).unwrap(),
            r matches Err(err) ==> match err {
                IntegrityError::DanglingHandle(rel, h) => rel == Relation::Next && h == id@ && (id@
                    >= self.ne() || (self.next_of(id@) is Some && self.next_of(id@).unwrap()
                    >= self.ne())),
                IntegrityError::MissingRelation(rel, h) => rel == Relation::Next && h == id@ && id@
                    < self.ne() && self.next_of(id@) is None,
                _ => false,
            },
    {
        if id.0 >= self.edges.len() {
            return Err(IntegrityError::DanglingHandle(Relation::Next, id.0));
        }
        match self.edges[id.0].next {
            None => Err(IntegrityError::MissingRelation(Relation::Next, id.0)),
            Some(n) => {
                if n >= self.edges.len() {
                    Err(IntegrityError::DanglingHandle(Relation::Next, id.0))
                } else {
                    Ok(EdgeID(n))
                }
            },
        }
    }

    /// Twin of the given half-edge.
    pub fn twin(&self, id: EdgeID) -> (r: Result<EdgeID, IntegrityError>)
        ensures
            r is Ok <==> id@ < self.ne() && self.twin_of(id@) is Some && self.twin_of(id@).unwrap()
                < self.ne(),
            r matches Ok(t) ==> t@ == self.twin_of(id@).unwrap(),
            r matches Err(err) ==> match err {
                IntegrityError::DanglingHandle(rel, h) => rel == Relation::Twin && h == id@ && (id@
                    >= self.ne() || (self.twin_of(id@) is Some && self.twin_of(id@).unwrap()
                    >= self.ne())),
                IntegrityError::MissingRelation(rel, h) => rel == Relation::Twin && h == id@ && id@
                    < self.ne() && self.twin_of(id@) is None,
                _ => false,
            },
    {
        if id.0 >= self.edges.len() {
            return Err(IntegrityError::DanglingHandle(Relation::Twin, id.0));
        }
        match self.edges[id.0].twin {
            None => Err(IntegrityError::MissingRelation(Relation::Twin, id.0)),
            Some(t) => {
                if t >= self.edges.len() {
                    Err(IntegrityError::DanglingHandle(Relation::Twin, id.0))
                } else {
                    Ok(EdgeID(t))
                }
            },
        }
    }

    /// Representative outgoing half-edge of the given vertex.
    pub fn vrep(&self, id: VertID) -> (r: Result<EdgeID, IntegrityError>)
        ensures
            r is Ok <==> id@ < self.nv() && self.vrep_of(id@) is Some,
            r matches Ok(e) ==> e@ == self.vrep_of(id@).unwrap(),
            r matches Err(err) ==> match err {
                IntegrityError::DanglingHandle(rel, h) => rel == Relation::VertRep && h == id@
                    && id@ >= self.nv(),
                IntegrityError::MissingRelation(rel, h) => rel == Relation::VertRep && h == id@
                    && id@ < self.nv() && self.vrep_of(id@) is None,
                _ => false,
            },
    {
        if id.0 >= self.verts.len() {
            return Err(IntegrityError::DanglingHandle(Relation::VertRep, id.0));
        }
        match self.verts[id.0] {
            None => Err(IntegrityError::MissingRelation(Relation::VertRep, id.0)),
            Some(e) => Ok(EdgeID(e)),
        }
    }

    /// Representative boundary half-edge of the given face.
    pub fn frep(&self, id: FaceID) -> (r: Result<EdgeID, IntegrityError>)
        ensures
            r is Ok <==> id@ < self.nf() && self.frep_of(id@) is Some,
            r matches Ok(e) ==> e@ == self.frep_of(id@).unwrap(),
            r matches Err(err) ==> match err {
                IntegrityError::DanglingHandle(rel, h) => rel == Relation::FaceRep && h == id@
                    && id@ >= self.nf(),
                IntegrityError::MissingRelation(rel, h) => rel == Relation::FaceRep && h == id@
                    && id@ < self.nf() && self.frep_of(id@) is None,
                _ => false,
            },
    {
        if id.0 >= self.faces.len() {
            return Err(IntegrityError::DanglingHandle(Relation::FaceRep, id.0));
        }
        match self.faces[id.0] {
            None => Err(IntegrityError::MissingRelation(Relation::FaceRep, id.0)),
            Some(e) => Ok(EdgeID(e)),
        }
    }

    /// Start and end vertex of the given half-edge: its own root and the root
    /// of its twin.
    pub fn endpoints(&self, id: EdgeID) -> (r: Result<(VertID, VertID), IntegrityError>)
        ensures
            r is Ok <==> id@ < self.ne() && self.root_of(id@) is Some && self.root_of(
                id@,
            ).unwrap() < self.nv() && self.twin_of(id@) is Some && self.twin_of(id@).unwrap()
                < self.ne() && self.root_of(self.etwin(id@)) is Some && self.root_of(
                self.etwin(id@),
            ).unwrap() < self.nv(),
            r matches Ok(p) ==> p.0@ == self.root_of(id@).unwrap() && p.1@ == self.root_of(
                self.etwin(id@),
            ).unwrap(),
    {
        let u = match self.root(id) {
            Ok(v) => v,
            Err(err) => { return Err(err) },
        };
        let t = match self.twin(id) {
            Ok(t) => t,
            Err(err) => { return Err(err) },
        };
        let v = match self.root(t) {
            Ok(v) => v,
            Err(err) => { return Err(err) },
        };
        Ok((u, v))
    }

    /// First pass: every element has all of its required relations.
    /// Returns `Ok` exactly when completeness holds; an error names a missing
    /// relation and the slot that lacks it.
    pub fn verify_properties(&self) -> (r: Result<(), IntegrityError>)
        ensures
            r is Ok <==> self.props_ok(),
            r matches Err(err) ==> match err {
                IntegrityError::MissingRelation(rel, h) => {
                    ||| rel == Relation::Root && h < self.ne() && self.root_of(h as int) is None
                    ||| rel == Relation::Face && h < self.ne() && self.face_of(h as int) is None
                    ||| rel == Relation::Next && h < self.ne() && self.next_of(h as int) is None
                    ||| rel == Relation::Twin && h < self.ne() && self.twin_of(h as int) is None
                    ||| rel == Relation::VertRep && h < self.nv() && self.vrep_of(h as int) is None
                    ||| rel == Relation::FaceRep && h < self.nf() && self.frep_of(h as int) is None
                },
                _ => false,
            },
    {
        let ne = self.edges.len();
        for e in 0..ne
            invariant
                ne == self.ne(),
                forall|i: int| 0 <= i < e ==> (#[trigger] self.root_of(i)) is Some,
                forall|i: int| 0 <= i < e ==> (#[trigger] self.face_of(i)) is Some,
                forall|i: int| 0 <= i < e ==> (#[trigger] self.next_of(i)) is Some,
                forall|i: int| 0 <= i < e ==> (#[trigger] self.twin_of(i)) is Some,
        {
            if self.edges[e].root.is_none() {
                return Err(IntegrityError::MissingRelation(Relation::Root, e));
            }
            if self.edges[e].face.is_none() {
                return Err(IntegrityError::MissingRelation(Relation::Face, e));
            }
            if self.edges[e].next.is_none() {
                return Err(IntegrityError::MissingRelation(Relation::Next, e));
            }
            if self.edges[e].twin.is_none() {
                return Err(IntegrityError::MissingRelation(Relation::Twin, e));
            }
        }
        let nv = self.verts.len();
        for v in 0..nv
            invariant
                nv == self.nv(),
                forall|i: int| 0 <= i < self.ne() ==> (#[trigger] self.root_of(i)) is Some,
                forall|i: int| 0 <= i < self.ne() ==> (#[trigger] self.face_of(i)) is Some,
                forall|i: int| 0 <= i < self.ne() ==> (#[trigger] self.next_of(i)) is Some,
                forall|i: int| 0 <= i < self.ne() ==> (#[trigger] self.twin_of(i)) is Some,
                forall|i: int| 0 <= i < v ==> (#[trigger] self.vrep_of(i)) is Some,
        {
            if self.verts[v].is_none() {
                return Err(IntegrityError::MissingRelation(Relation::VertRep, v));
            }
        }
        let nf = self.faces.len();
        for f in 0..nf
            invariant
                nf == self.nf(),
                forall|i: int| 0 <= i < self.ne() ==> (#[trigger] self.root_of(i)) is Some,
                forall|i: int| 0 <= i < self.ne() ==> (#[trigger] self.face_of(i)) is Some,
                forall|i: int| 0 <= i < self.ne() ==> (#[trigger] self.next_of(i)) is Some,
                forall|i: int| 0 <= i < self.ne() ==> (#[trigger] self.twin_of(i)) is Some,
                forall|i: int| 0 <= i < self.nv() ==> (#[trigger] self.vrep_of(i)) is Some,
                forall|i: int| 0 <= i < f ==> (#[trigger] self.frep_of(i)) is Some,
        {
            if self.faces[f].is_none() {
                return Err(IntegrityError::MissingRelation(Relation::FaceRep, f));
            }
        }
        Ok(())
    }

    /// Second pass: every stored relation target refers to a live element.
    /// Assumes the first pass succeeded.  Returns `Ok` exactly when
    /// referential integrity holds; an error names the relation whose stored
    /// target is dead and the slot that stores it.
    pub fn verify_references(&self) -> (r: Result<(), IntegrityError>)
        requires
            self.props_ok(),
        ensures
            r is Ok <==> self.refs_ok(),
            r matches Err(err) ==> match err {
                IntegrityError::DanglingHandle(rel, h) => {
                    ||| rel == Relation::Root && h < self.ne() && self.root_of(h as int).unwrap()
                        >= self.nv()
                    ||| rel == Relation::Face && h < self.ne() && self.face_of(h as int).unwrap()
                        >= self.nf()
                    ||| rel == Relation::Next && h < self.ne() && self.next_of(h as int).unwrap()
                        >= self.ne()
                    ||| rel == Relation::Twin && h < self.ne() && self.twin_of(h as int).unwrap()
                        >= self.ne()
                    ||| rel == Relation::VertRep && h < self.nv() && self.vrep_of(
                        h as int,
                    ).unwrap() >= self.ne()
                    ||| rel == Relation::FaceRep && h < self.nf() && self.frep_of(
                        h as int,
                    ).unwrap() >= self.ne()
                },
                _ => false,
            },
    {
        let ne = self.edges.len();
        let nv = self.verts.len();
        let nf = self.faces.len();
        for e in 0..ne
            invariant
                ne == self.ne(),
                nv == self.nv(),
                nf == self.nf(),
                self.props_ok(),
                forall|i: int| 0 <= i < e ==> (#[trigger] self.root_of(i)).unwrap() < self.nv(),
                forall|i: int| 0 <= i < e ==> (#[trigger] self.face_of(i)).unwrap() < self.nf(),
                forall|i: int| 0 <= i < e ==> (#[trigger] self.next_of(i)).unwrap() < self.ne(),
                forall|i: int| 0 <= i < e ==> (#[trigger] self.twin_of(i)).unwrap() < self.ne(),
        {
            proof {
                assert(self.root_of(e as int) is Some);
                assert(self.face_of(e as int) is Some);
                assert(self.next_of(e as int) is Some);
                assert(self.twin_of(e as int) is Some);
            }
            let slot = self.edges[e];
            if slot.root.unwrap() >= nv {
                return Err(IntegrityError::DanglingHandle(Relation::Root, e));
            }
            if slot.face.unwrap() >= nf {
                return Err(IntegrityError::DanglingHandle(Relation::Face, e));
            }
            if slot.next.unwrap() >= ne {
                return Err(IntegrityError::DanglingHandle(Relation::Next, e));
            }
            if slot.twin.unwrap() >= ne {
                return Err(IntegrityError::DanglingHandle(Relation::Twin, e));
            }
        }
        for v in 0..nv
            invariant
                ne == self.ne(),
                nv == self.nv(),
                nf == self.nf(),
                self.props_ok(),
                forall|i: int|
                    0 <= i < self.ne() ==> (#[trigger] self.root_of(i)).unwrap() < self.nv(),
                forall|i: int|
                    0 <= i < self.ne() ==> (#[trigger] self.face_of(i)).unwrap() < self.nf(),
                forall|i: int|
                    0 <= i < self.ne() ==> (#[trigger] self.next_of(i)).unwrap() < self.ne(),
                forall|i: int|
                    0 <= i < self.ne() ==> (#[trigger] self.twin_of(i)).unwrap() < self.ne(),
                forall|i: int| 0 <= i < v ==> (#[trigger] self.vrep_of(i)).unwrap() < self.ne(),
        {
            proof {
                assert(self.vrep_of(v as int) is Some);
            }
            if self.verts[v].unwrap() >= ne {
                return Err(IntegrityError::DanglingHandle(Relation::VertRep, v));
            }
        }
        for f in 0..nf
            invariant
                ne == self.ne(),
                nv == self.nv(),
                nf == self.nf(),
                self.props_ok(),
                forall|i: int|
                    0 <= i < self.ne() ==> (#[trigger] self.root_of(i)).unwrap() < self.nv(),
                forall|i: int|
                    0 <= i < self.ne() ==> (#[trigger] self.face_of(i)).unwrap() < self.nf(),
                forall|i: int|
                    0 <= i < self.ne() ==> (#[trigger] self.next_of(i)).unwrap() < self.ne(),
                forall|i: int|
                    0 <= i < self.ne() ==> (#[trigger] self.twin_of(i)).unwrap() < self.ne(),
                forall|i: int|
                    0 <= i < self.nv() ==> (#[trigger] self.vrep_of(i)).unwrap() < self.ne(),
                forall|i: int| 0 <= i < f ==> (#[trigger] self.frep_of(i)).unwrap() < self.ne(),
        {
            proof {
                assert(self.frep_of(f as int) is Some);
            }
            if self.faces[f].unwrap() >= ne {
                return Err(IntegrityError::DanglingHandle(Relation::FaceRep, f));
            }
        }
        Ok(())
    }

    /// Third pass: the four half-edge invariants.  Assumes the first two
    /// passes succeeded.  Returns `Ok` exactly when all four invariants hold;
    /// an error carries a half-edge witnessing the named invariant's failure.
    pub fn verify_invariants(&self) -> (r: Result<(), IntegrityError>)
        requires
            self.props_ok(),
            self.refs_ok(),
        ensures
            r is Ok <==> self.inv_twin() && self.inv_root() && self.inv_face() && self.inv_cycle(),
            r matches Err(err) ==> match err {
                IntegrityError::InvariantViolated(kind, id) => 0 <= id@ < self.ne() && match kind {
                    InvariantKind::TwinTwin => self.etwin(self.etwin(id@)) != id@,
                    InvariantKind::RootAroundVertex => self.eroot(self.enext(self.etwin(id@)))
                        != self.eroot(id@),
                    InvariantKind::NextSameFace => self.eface(self.enext(id@)) != self.eface(id@),
                    InvariantKind::NextReturns => !self.returns_within(id@, MAX_FACE_DEGREE as nat),
                },
                _ => false,
            },
    {
        let ne = self.edges.len();
        for e in 0..ne
            invariant
                ne == self.ne(),
                self.props_ok(),
                self.refs_ok(),
                forall|i: int| 0 <= i < e ==> self.etwin(#[trigger] self.etwin(i)) == i,
        {
            proof {
                assert(self.twin_of(e as int) is Some);
                assert(self.twin_of(e as int).unwrap() < self.ne());
            }
            let t = self.edges[e].twin.unwrap();
            proof {
                assert(self.twin_of(t as int) is Some);
            }
            if self.edges[t].twin.unwrap() != e {
                proof {
                    assert(self.etwin(self.etwin(e as int)) != e);
                    assert(!self.inv_twin());
                }
                return Err(IntegrityError::InvariantViolated(InvariantKind::TwinTwin, EdgeID(e)));
            }
        }
        for e in 0..ne
            invariant
                ne == self.ne(),
                self.props_ok(),
                self.refs_ok(),
                forall|i: int|
                    0 <= i < e ==> self.eroot(self.enext(#[trigger] self.etwin(i))) == self.eroot(
                        i,
                    ),
        {
            proof {
                assert(self.twin_of(e as int) is Some);
                assert(self.twin_of(e as int).unwrap() < self.ne());
            }
            let t = self.edges[e].twin.unwrap();
            proof {
                assert(self.next_of(t as int) is Some);
                assert(self.next_of(t as int).unwrap() < self.ne());
            }
            let n = self.edges[t].next.unwrap();
            proof {
                assert(self.root_of(n as int) is Some);
                assert(self.root_of(e as int) is Some);
            }
            if self.edges[n].root.unwrap() != self.edges[e].root.unwrap() {
                proof {
                    assert(self.eroot(self.enext(self.etwin(e as int))) != self.eroot(e as int));
                    assert(!self.inv_root());
                }
                return Err(
                    IntegrityError::InvariantViolated(InvariantKind::RootAroundVertex, EdgeID(e)),
                );
            }
        }
        for e in 0..ne
            invariant
                ne == self.ne(),
                self.props_ok(),
                self.refs_ok(),
                forall|i: int| 0 <= i < e ==> self.eface(#[trigger] self.enext(i)) == self.eface(i),
        {
            proof {
                assert(self.next_of(e as int) is Some);
                assert(self.next_of(e as int).unwrap() < self.ne());
            }
            let n = self.edges[e].next.unwrap();
            proof {
                assert(self.face_of(n as int) is Some);
                assert(self.face_of(e as int) is Some);
            }
            if self.edges[n].face.unwrap() != self.edges[e].face.unwrap() {
                proof {
                    assert(self.eface(self.enext(e as int)) != self.eface(e as int));
                    assert(!self.inv_face());
                }
                return Err(
                    IntegrityError::InvariantViolated(InvariantKind::NextSameFace, EdgeID(e)),
                );
            }
        }
        for e in 0..ne
            invariant
                ne == self.ne(),
                self.props_ok(),
                self.refs_ok(),
                forall|i: int|
                    0 <= i < e ==> #[trigger] self.returns_within(i, MAX_FACE_DEGREE as nat),
        {
            let mut cur: usize = e;
            let mut step: usize = 0;
            let mut found = false;
            while step < MAX_FACE_DEGREE && !found
                invariant
                    ne == self.ne(),
                    self.props_ok(),
                    self.refs_ok(),
                    e < ne,
                    step <= MAX_FACE_DEGREE,
                    cur < ne,
                    cur == self.next_k(e as int, step as nat),
                    found ==> 1 <= step && cur == e,
                    !found ==> forall|m: nat|
                        1 <= m <= step ==> #[trigger] self.next_k(e as int, m) != e,
                decreases MAX_FACE_DEGREE - step + (if found {
                    0int
                } else {
                    1int
                }),
            {
                proof {
                    assert(self.next_of(cur as int) is Some);
                    assert(self.next_of(cur as int).unwrap() < self.ne());
                }
                cur = self.edges[cur].next.unwrap();
                step += 1;
                if cur == e {
                    found = true;
                }
            }
            if !found {
                proof {
                    assert(!self.returns_within(e as int, MAX_FACE_DEGREE as nat));
                    assert(!self.inv_cycle());
                }
                return Err(
                    IntegrityError::InvariantViolated(InvariantKind::NextReturns, EdgeID(e)),
                );
            }
        }
        Ok(())
    }
}

} // verus!
