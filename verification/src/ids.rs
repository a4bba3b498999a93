//! Opaque handles for mesh elements, the error taxonomy, and the
//! index-to-handle maps returned by construction.
//!
//! Handles carry a slot index into the owning mesh's arenas; the index is not
//! visible outside the crate, so equality is the only operation a caller has.

use vstd::prelude::*;

verus! {

/// Handle of a vertex.
#[derive(Clone, Copy, PartialEq, Eq, Structural, PartialOrd, Ord, Hash, Debug)]
pub struct VertID(pub(crate) usize);

/// Handle of a half-edge.
#[derive(Clone, Copy, PartialEq, Eq, Structural, PartialOrd, Ord, Hash, Debug)]
pub struct EdgeID(pub(crate) usize);

/// Handle of a face.
#[derive(Clone, Copy, PartialEq, Eq, Structural, PartialOrd, Ord, Hash, Debug)]
pub struct FaceID(pub(crate) usize);

impl View for VertID {
    type V = int;

    /// The slot index a vertex handle stands for.
    closed spec fn view(&self) -> int {
        self.0 as int
    }
}

impl View for EdgeID {
    type V = int;

    /// The slot index a half-edge handle stands for.
    closed spec fn view(&self) -> int {
        self.0 as int
    }
}

impl View for FaceID {
    type V = int;

    /// The slot index a face handle stands for.
    closed spec fn view(&self) -> int {
        self.0 as int
    }
}

/// Inside the crate, a vertex handle is its slot index.
pub(crate) broadcast proof fn lemma_vertid_view(v: VertID)
    ensures
        #[trigger] v@ == v.0 as int,
{
}

/// Inside the crate, a half-edge handle is its slot index.
pub(crate) broadcast proof fn lemma_edgeid_view(e: EdgeID)
    ensures
        #[trigger] e@ == e.0 as int,
{
}

/// Inside the crate, a face handle is its slot index.
pub(crate) broadcast proof fn lemma_faceid_view(f: FaceID)
    ensures
        #[trigger] f@ == f.0 as int,
{
}

/// Construction-time failure: the input face list does not describe a closed
/// manifold surface.  No mesh is returned alongside one of these.
#[derive(Clone, Copy, PartialEq, Eq, Structural, Debug)]
pub enum StructuralError {
    /// Two half-edges claim the same directed vertex pair; both are reported.
    NonManifold(EdgeID, EdgeID),
    /// A half-edge has no oppositely directed counterpart.
    NonWatertight(EdgeID),
    /// The face at this input position has fewer than three corners, or
    /// repeats a corner.
    DegenerateFace(usize),
}

/// Which of the stored relations an integrity error is about.
#[derive(Clone, Copy, PartialEq, Eq, Structural, Debug)]
pub enum Relation {
    Root,
    Face,
    Next,
    Twin,
    VertRep,
    FaceRep,
}

/// Which structural invariant a verification pass found broken.
#[derive(Clone, Copy, PartialEq, Eq, Structural, Debug)]
pub enum InvariantKind {
    /// `twin(twin(e)) == e` failed.
    TwinTwin,
    /// `root(next(twin(e))) == root(e)` failed.
    RootAroundVertex,
    /// `face(next(e)) == face(e)` failed.
    NextSameFace,
    /// Repeated `next` did not return to the edge within the degree bound.
    NextReturns,
}

/// Verification-time failure: the mesh structure is corrupt.
#[derive(Clone, Copy, PartialEq, Eq, Structural, Debug)]
pub enum IntegrityError {
    /// The element at the carried slot index lacks the named relation.
    MissingRelation(Relation, usize),
    /// A handle (queried, or stored under the named relation of the carried
    /// slot) refers to no live element.
    DanglingHandle(Relation, usize),
    /// The carried half-edge witnesses the named invariant's failure.
    InvariantViolated(InvariantKind, EdgeID),
}

/// Failure while attaching an embedding to a mesh.
#[derive(Clone, Copy, PartialEq, Eq, Structural, Debug)]
pub enum EmbeddedMeshError {
    /// The face has fewer than three corners.
    FaceNotPolygon(FaceID),
    /// The face's corners are not coplanar.
    FaceNotPlanar(FaceID),
    /// Two boundary edges of the face intersect.
    FaceNotSimple(FaceID),
    /// The underlying face list was rejected by construction.
    MeshError(StructuralError),
}

/// Bidirectional map between the caller's vertex indices and vertex handles.
#[derive(Clone, Debug)]
pub struct VertMap {
    pub(crate) pairs: Vec<(usize, VertID)>,
}

/// Inside the crate, a vertex map's entries are its pair vector.
pub(crate) broadcast proof fn lemma_vertmap_entries(vm: VertMap)
    ensures
        #[trigger] vm.entries() == vm.pairs@,
{
}

/// Inside the crate, a face map's entries are its pair vector.
pub(crate) broadcast proof fn lemma_facemap_entries(fm: FaceMap)
    ensures
        #[trigger] fm.entries() == fm.pairs@,
{
}

impl VertMap {
    /// The (caller index, handle) pairs, in insertion order.
    pub closed spec fn entries(self) -> Seq<(usize, VertID)> {
        self.pairs@
    }

    /// No caller index and no handle occurs twice.
    pub open spec fn wf(self) -> bool {
        forall|i: int, j: int|
            0 <= i < j < self.entries().len() ==> self.entries()[i].0 != self.entries()[j].0
                && self.entries()[i].1 != self.entries()[j].1
    }

    /// The handle allocated for the caller's vertex index `l`, if any.
    pub fn get_by_left(&self, l: usize) -> (r: Option<VertID>)
        ensures
            match r {
                Some(v) => self.entries().contains((l, v)),
                None => forall|i: int| 0 <= i < self.entries().len() ==> self.entries()[i].0 != l,
            },
    {
        let mut k: usize = 0;
        while k < self.pairs.len()
            invariant
                k <= self.pairs.len(),
                forall|i: int| 0 <= i < k ==> self.entries()[i].0 != l,
            decreases self.pairs.len() - k,
        {
            if self.pairs[k].0 == l {
                return Some(self.pairs[k].1);
            }
            k += 1;
        }
        None
    }

    /// The caller's vertex index behind the handle `v`, if any.
    pub fn get_by_right(&self, v: VertID) -> (r: Option<usize>)
        ensures
            match r {
                Some(l) => self.entries().contains((l, v)),
                None => forall|i: int| 0 <= i < self.entries().len() ==> self.entries()[i].1 != v,
            },
    {
        let mut k: usize = 0;
        while k < self.pairs.len()
            invariant
                k <= self.pairs.len(),
                forall|i: int| 0 <= i < k ==> self.entries()[i].1 != v,
            decreases self.pairs.len() - k,
        {
            if self.pairs[k].1 == v {
                return Some(self.pairs[k].0);
            }
            k += 1;
        }
        None
    }

    /// Number of mapped vertices.
    pub fn len(&self) -> (r: usize)
        ensures
            r == self.entries().len(),
    {
        self.pairs.len()
    }
}

/// Bidirectional map between the caller's face positions and face handles.
#[derive(Clone, Debug)]
pub struct FaceMap {
    pub(crate) pairs: Vec<(usize, FaceID)>,
}

impl FaceMap {
    /// The (caller position, handle) pairs, in insertion order.
    pub closed spec fn entries(self) -> Seq<(usize, FaceID)> {
        self.pairs@
    }

    /// No caller position and no handle occurs twice.
    pub open spec fn wf(self) -> bool {
        forall|i: int, j: int|
            0 <= i < j < self.entries().len() ==> self.entries()[i].0 != self.entries()[j].0
                && self.entries()[i].1 != self.entries()[j].1
    }

    /// The handle allocated for the caller's face position `l`, if any.
    pub fn get_by_left(&self, l: usize) -> (r: Option<FaceID>)
        ensures
            match r {
                Some(f) => self.entries().contains((l, f)),
                None => forall|i: int| 0 <= i < self.entries().len() ==> self.entries()[i].0 != l,
            },
    {
        let mut k: usize = 0;
        while k < self.pairs.len()
            invariant
                k <= self.pairs.len(),
                forall|i: int| 0 <= i < k ==> self.entries()[i].0 != l,
            decreases self.pairs.len() - k,
        {
            if self.pairs[k].0 == l {
                return Some(self.pairs[k].1);
            }
            k += 1;
        }
        None
    }

    /// The caller's face position behind the handle `f`, if any.
    pub fn get_by_right(&self, f: FaceID) -> (r: Option<usize>)
        ensures
            match r {
                Some(l) => self.entries().contains((l, f)),
                None => forall|i: int| 0 <= i < self.entries().len() ==> self.entries()[i].1 != f,
            },
    {
        let mut k: usize = 0;
        while k < self.pairs.len()
            invariant
                k <= self.pairs.len(),
                forall|i: int| 0 <= i < k ==> self.entries()[i].1 != f,
            decreases self.pairs.len() - k,
        {
            if self.pairs[k].1 == f {
                return Some(self.pairs[k].0);
            }
            k += 1;
        }
        None
    }

    /// Number of mapped faces.
    pub fn len(&self) -> (r: usize)
        ensures
            r == self.entries().len(),
    {
        self.pairs.len()
    }
}

} // verus!
