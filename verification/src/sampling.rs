//! Random element handles, for callers that probe or seed work on a mesh.

use crate::douconel::Douconel;
use crate::ids::EdgeID;
use crate::ids::FaceID;
use crate::ids::VertID;
use vstd::prelude::*;

verus! {

broadcast use crate::ids::lemma_vertid_view, crate::ids::lemma_edgeid_view, crate::ids::lemma_faceid_view;

/// Relies on rand's `IteratorRandom::sample` over the range `0..m`: a
/// reservoir sample of `min(n, m)` distinct positions below `m`.  Which
/// positions come back depends on the thread's random generator, so nothing
/// more is promised of them.
#[verifier::external_body]
fn sample_indices(m: usize, n: usize) -> (r: Vec<usize>)
    ensures
        r@.len() == (if n <= m {
            n as int
        } else {
            m as int
        }),
        forall|i: int| 0 <= i < r@.len() ==> (#[trigger] r@[i]) < m,
        forall|i: int, j: int| 0 <= i < j < r@.len() ==> r@[i] != r@[j],
{
    let mut rng = rand::rng();
    rand::seq::IteratorRandom::sample(0..m, &mut rng, n)
}

impl Douconel {
    /// `n` distinct random vertex handles — all of them if fewer exist.
    pub fn random_verts(&self, n: usize) -> (r: Vec<VertID>)
        ensures
            r@.len() == (if n <= self.nv() {
                n as int
            } else {
                self.nv() as int
            }),
            forall|i: int| 0 <= i < r@.len() ==> 0 <= (#[trigger] r@[i])@ < self.nv(),
            forall|i: int, j: int| 0 <= i < j < r@.len() ==> r@[i] != r@[j],
    {
        let ks = sample_indices(self.nr_verts(), n);
        let mut out: Vec<VertID> = Vec::new();
        let len = ks.len();
        for k in 0..len
            invariant
                len == ks@.len(),
                out@.len() == k,
                forall|i: int| 0 <= i < ks@.len() ==> (#[trigger] ks@[i]) < self.nv(),
                forall|i: int, j: int| 0 <= i < j < ks@.len() ==> ks@[i] != ks@[j],
                forall|i: int| 0 <= i < k ==> (#[trigger] out@[i])@ == ks@[i],
        {
            out.push(VertID(ks[k]));
        }
        proof {
            assert forall|i: int, j: int| 0 <= i < j < out@.len() implies out@[i] != out@[j] by {
                assert(ks@[i] != ks@[j]);
            }
        }
        out
    }

    /// `n` distinct random half-edge handles — all of them if fewer exist.
    pub fn random_edges(&self, n: usize) -> (r: Vec<EdgeID>)
        ensures
            r@.len() == (if n <= self.ne() {
                n as int
            } else {
                self.ne() as int
            }),
            forall|i: int| 0 <= i < r@.len() ==> 0 <= (#[trigger] r@[i])@ < self.ne(),
            forall|i: int, j: int| 0 <= i < j < r@.len() ==> r@[i] != r@[j],
    {
        let ks = sample_indices(self.nr_edges(), n);
        let mut out: Vec<EdgeID> = Vec::new();
        let len = ks.len();
        for k in 0..len
            invariant
                len == ks@.len(),
                out@.len() == k,
                forall|i: int| 0 <= i < ks@.len() ==> (#[trigger] ks@[i]) < self.ne(),
                forall|i: int, j: int| 0 <= i < j < ks@.len() ==> ks@[i] != ks@[j],
                forall|i: int| 0 <= i < k ==> (#[trigger] out@[i])@ == ks@[i],
        {
            out.push(EdgeID(ks[k]));
        }
        proof {
            assert forall|i: int, j: int| 0 <= i < j < out@.len() implies out@[i] != out@[j] by {
                assert(ks@[i] != ks@[j]);
            }
        }
        out
    }

    /// `n` distinct random face handles — all of them if fewer exist.
    pub fn random_faces(&self, n: usize) -> (r: Vec<FaceID>)
        ensures
            r@.len() == (if n <= self.nf() {
                n as int
            } else {
                self.nf() as int
            }),
            forall|i: int| 0 <= i < r@.len() ==> 0 <= (#[trigger] r@[i])@ < self.nf(),
            forall|i: int, j: int| 0 <= i < j < r@.len() ==> r@[i] != r@[j],
    {
        let ks = sample_indices(self.nr_faces(), n);
        let mut out: Vec<FaceID> = Vec::new();
        let len = ks.len();
        for k in 0..len
            invariant
                len == ks@.len(),
                out@.len() == k,
                forall|i: int| 0 <= i < ks@.len() ==> (#[trigger] ks@[i]) < self.nf(),
                forall|i: int, j: int| 0 <= i < j < ks@.len() ==> ks@[i] != ks@[j],
                forall|i: int| 0 <= i < k ==> (#[trigger] out@[i])@ == ks@[i],
        {
            out.push(FaceID(ks[k]));
        }
        proof {
            assert forall|i: int, j: int| 0 <= i < j < out@.len() implies out@[i] != out@[j] by {
                assert(ks@[i] != ks@[j]);
            }
        }
        out
    }
}

} // verus!
