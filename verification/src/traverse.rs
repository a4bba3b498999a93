//! Traversal primitives: ordered walks along the stored relations.
//!
//! A face's boundary is the orbit of its representative under `next`; a
//! vertex's outgoing fan is the orbit of its representative under
//! twin-then-next.  Both walks terminate because a sound mesh closes its
//! face loops and never merges two edges under `next`.

use crate::ids::EdgeID;
use crate::ids::FaceID;
use crate::ids::VertID;
use crate::douconel::Douconel;
use crate::douconel::MAX_FACE_DEGREE;
use vstd::prelude::*;
use vstd::seq_lib::*;
use vstd::set_lib::*;

verus! {

broadcast use crate::ids::lemma_vertid_view, crate::ids::lemma_edgeid_view, crate::ids::lemma_faceid_view, crate::douconel::lemma_model_counts, crate::douconel::lemma_model_edge, crate::douconel::lemma_model_reps;

impl Douconel {
    /// Twin-then-next, the step that walks the fan around a vertex.
    pub open spec fn rot(self, e: int) -> int {
        self.enext(self.etwin(e))
    }

    /// Twin-then-next iterated `k` times from `e`.
    pub open spec fn rot_k(self, e: int, k: nat) -> int
        decreases k,
    {
        if k == 0 {
            e
        } else {
            self.rot(self.rot_k(e, (k - 1) as nat))
        }
    }
}

/// Splitting an iteration count of `next` walks the first part, then the
/// second.
pub proof fn lemma_next_k_add(m: Douconel, e: int, a: nat, b: nat)
    ensures
        m.next_k(e, a + b) == m.next_k(m.next_k(e, a), b),
    decreases b,
{
    if b > 0 {
        lemma_next_k_add(m, e, a, (b - 1) as nat);
        assert(m.next_k(e, a + b) == m.enext(m.next_k(e, (a + b - 1) as nat)));
    }
}

/// Once the walk returns after `p` steps, every count reduces to its
/// remainder below `p`.
pub proof fn lemma_next_k_window(m: Douconel, e: int, p: nat, k: nat)
    requires
        1 <= p,
        m.next_k(e, p) == e,
    ensures
        k % p < p,
        m.next_k(e, k) == m.next_k(e, (k % p)),
    decreases k,
{
    vstd::arithmetic::div_mod::lemma_mod_bound(k as int, p as int);
    if k < p {
        vstd::arithmetic::div_mod::lemma_small_mod(k, p);
    } else {
        lemma_next_k_add(m, e, p, (k - p) as nat);
        assert(m.next_k(e, k) == m.next_k(e, (k - p) as nat));
        lemma_next_k_window(m, e, p, (k - p) as nat);
        vstd::arithmetic::div_mod::lemma_mod_multiples_vanish(1, k - p, p as int);
        assert((k - p) % (p as int) == (k as int) % (p as int));
    }
}

/// Splitting an iteration count of twin-then-next walks the first part,
/// then the second.
pub proof fn lemma_rot_k_add(m: Douconel, e: int, a: nat, b: nat)
    ensures
        m.rot_k(e, a + b) == m.rot_k(m.rot_k(e, a), b),
    decreases b,
{
    if b > 0 {
        lemma_rot_k_add(m, e, a, (b - 1) as nat);
        assert(m.rot_k(e, a + b) == m.rot(m.rot_k(e, (a + b - 1) as nat)));
    }
}

/// Once the fan walk returns after `p` steps, every count reduces to its
/// remainder below `p`.
pub proof fn lemma_rot_k_window(m: Douconel, e: int, p: nat, k: nat)
    requires
        1 <= p,
        m.rot_k(e, p) == e,
    ensures
        k % p < p,
        m.rot_k(e, k) == m.rot_k(e, (k % p)),
    decreases k,
{
    vstd::arithmetic::div_mod::lemma_mod_bound(k as int, p as int);
    if k < p {
        vstd::arithmetic::div_mod::lemma_small_mod(k, p);
    } else {
        lemma_rot_k_add(m, e, p, (k - p) as nat);
        assert(m.rot_k(e, k) == m.rot_k(e, (k - p) as nat));
        lemma_rot_k_window(m, e, p, (k - p) as nat);
        vstd::arithmetic::div_mod::lemma_mod_multiples_vanish(1, k - p, p as int);
        assert((k - p) % (p as int) == (k as int) % (p as int));
    }
}

/// The fan walk stays among the live half-edges.
pub proof fn lemma_rot_k_range(m: Douconel, e: int, k: nat)
    requires
        m.props_ok(),
        m.refs_ok(),
        m.inv_twin(),
        0 <= e < m.ne(),
    ensures
        0 <= m.rot_k(e, k) < m.ne(),
    decreases k,
{
    if k > 0 {
        lemma_rot_k_range(m, e, (k - 1) as nat);
    }
}

/// A single twin-then-next step never merges two edges.
proof fn lemma_rot_injective(m: Douconel, a: int, b: int)
    requires
        m.props_ok(),
        m.refs_ok(),
        m.inv_twin(),
        m.next_injective(),
        0 <= a < m.ne(),
        0 <= b < m.ne(),
        m.rot(a) == m.rot(b),
    ensures
        a == b,
{
    assert(m.etwin(a) == m.etwin(b));
    assert(m.etwin(m.etwin(a)) == a);
    assert(m.etwin(m.etwin(b)) == b);
}

/// If two fan-walk counts land on the same edge, their difference returns
/// to the start.
proof fn lemma_rot_k_cancel(m: Douconel, e: int, x: nat, y: nat)
    requires
        m.props_ok(),
        m.refs_ok(),
        m.inv_twin(),
        m.next_injective(),
        0 <= e < m.ne(),
        y <= x,
        m.rot_k(e, x) == m.rot_k(e, y),
    ensures
        m.rot_k(e, (x - y) as nat) == e,
    decreases y,
{
    if y > 0 {
        lemma_rot_k_range(m, e, (x - 1) as nat);
        lemma_rot_k_range(m, e, (y - 1) as nat);
        lemma_rot_injective(m, m.rot_k(e, (x - 1) as nat), m.rot_k(e, (y - 1) as nat));
        lemma_rot_k_cancel(m, e, (x - 1) as nat, (y - 1) as nat);
    }
}

/// A duplicate-free sequence of values below `n` has at most `n` entries.
proof fn lemma_distinct_in_range_bounded(s: Seq<int>, n: int)
    requires
        n >= 0,
        s.no_duplicates(),
        forall|i: int| 0 <= i < s.len() ==> 0 <= #[trigger] s[i] < n,
    ensures
        s.len() <= n,
{
    broadcast use vstd::set::group_set_axioms;

    s.unique_seq_to_set();
    assert forall|x: int| s.to_set().contains(x) implies set_int_range(0, n).contains(x) by {
        assert(s.contains(x));
        let i = choose|i: int| 0 <= i < s.len() && s[i] == x;
    }
    lemma_int_range(0, n);
    lemma_len_subset(s.to_set(), set_int_range(0, n));
}

impl Douconel {
    /// Next edge, total under completeness and referential integrity.
    pub(crate) fn next_t(&self, e: usize) -> (r: usize)
        requires
            self.props_ok(),
            self.refs_ok(),
            e < self.ne(),
        ensures
            r == self.enext(e as int),
            r < self.ne(),
    {
        match self.edges[e].next {
            Some(n) => n,
            None => {
                proof {
                    assert(self.next_of(e as int) is Some);
                }
                unreached()
            },
        }
    }

    /// Twin edge, total under completeness and referential integrity.
    pub(crate) fn twin_t(&self, e: usize) -> (r: usize)
        requires
            self.props_ok(),
            self.refs_ok(),
            e < self.ne(),
        ensures
            r == self.etwin(e as int),
            r < self.ne(),
    {
        match self.edges[e].twin {
            Some(t) => t,
            None => {
                proof {
                    assert(self.twin_of(e as int) is Some);
                }
                unreached()
            },
        }
    }

    /// Root vertex, total under completeness and referential integrity.
    pub(crate) fn root_t(&self, e: usize) -> (r: usize)
        requires
            self.props_ok(),
            self.refs_ok(),
            e < self.ne(),
        ensures
            r == self.eroot(e as int),
            r < self.nv(),
    {
        match self.edges[e].root {
            Some(v) => v,
            None => {
                proof {
                    assert(self.root_of(e as int) is Some);
                }
                unreached()
            },
        }
    }

    /// Incident face, total under completeness and referential integrity.
    pub(crate) fn face_t(&self, e: usize) -> (r: usize)
        requires
            self.props_ok(),
            self.refs_ok(),
            e < self.ne(),
        ensures
            r == self.eface(e as int),
            r < self.nf(),
    {
        match self.edges[e].face {
            Some(f) => f,
            None => {
                proof {
                    assert(self.face_of(e as int) is Some);
                }
                unreached()
            },
        }
    }

    /// The boundary edges of a face, starting at its representative and
    /// following `next` until the loop closes.  The result is the whole
    /// orbit: consecutive entries are `next`-linked, the walk returns to the
    /// start right after the last entry and never earlier, every entry lies
    /// on the face, and every further `next` step stays within the list.
    pub fn edges(&self, id: FaceID) -> (r: Vec<EdgeID>)
        requires
            self.wf(),
            self.rep_ok(),
            id@ < self.nf(),
        ensures
            1 <= r@.len() <= MAX_FACE_DEGREE,
            r@.len() <= self.ne(),
            (r@[0])@ == self.frep_of(id@).unwrap(),
            forall|k: int|
                0 <= k < r@.len() ==> (#[trigger] r@[k])@ == self.next_k(
                    self.frep_of(id@).unwrap() as int,
                    k as nat,
                ),
            self.next_k(self.frep_of(id@).unwrap() as int, r@.len() as nat) == self.frep_of(
                id@,
            ).unwrap(),
            forall|k: nat|
                1 <= k < r@.len() ==> #[trigger] self.next_k(
                    self.frep_of(id@).unwrap() as int,
                    k,
                ) != self.frep_of(id@).unwrap(),
            forall|k: int|
                0 <= k < r@.len() ==> 0 <= (#[trigger] r@[k])@ < self.ne() && self.eface(r@[k]@)
                    == id@,
            forall|k1: int, k2: int| 0 <= k1 < k2 < r@.len() ==> r@[k1] != r@[k2],
            forall|k: nat|
                exists|x: int|
                    0 <= x < r@.len() && (r@[x])@ == #[trigger] self.next_k(
                        self.frep_of(id@).unwrap() as int,
                        k,
                    ),
    {
        let rep = match self.frep(id) {
            Ok(e) => e,
            Err(_) => { unreached() },
        };
        let rep_u = rep.0;
        proof {
            assert(rep_u == self.frep_of(id@).unwrap());
            assert(rep_u < self.ne());
            assert(self.eface(rep_u as int) == id@);
            assert(self.returns_within(rep_u as int, MAX_FACE_DEGREE as nat));
        }
        let mut out: Vec<EdgeID> = Vec::new();
        out.push(rep);
        let mut cand: usize = self.next_t(rep_u);
        proof {
            assert(self.next_k(rep_u as int, 0) == rep_u as int);
            assert(self.next_k(rep_u as int, 1) == self.enext(self.next_k(rep_u as int, 0)));
        }
        while cand != rep_u
            invariant
                self.wf(),
                self.rep_ok(),
                id@ < self.nf(),
                rep.0 == rep_u,
                rep_u < self.ne(),
                rep_u == self.frep_of(id@).unwrap(),
                self.eface(rep_u as int) == id@,
                self.returns_within(rep_u as int, MAX_FACE_DEGREE as nat),
                1 <= out@.len() <= MAX_FACE_DEGREE,
                cand < self.ne(),
                cand == self.next_k(rep_u as int, out@.len() as nat),
                forall|k: int|
                    0 <= k < out@.len() ==> (#[trigger] out@[k])@ == self.next_k(
                        rep_u as int,
                        k as nat,
                    ),
                forall|k: nat|
                    1 <= k < out@.len() ==> #[trigger] self.next_k(rep_u as int, k) != rep_u,
                forall|k: int|
                    0 <= k < out@.len() ==> 0 <= (#[trigger] out@[k])@ < self.ne() && self.eface(
                        out@[k]@,
                    ) == id@,
            decreases MAX_FACE_DEGREE - out@.len(),
        {
            proof {
                let p = choose|p: nat|
                    1 <= p <= MAX_FACE_DEGREE && self.next_k(rep_u as int, p) == rep_u;
                if p < out@.len() {
                    assert(self.next_k(rep_u as int, p) != rep_u);
                }
                if p == out@.len() {
                    assert(self.next_k(rep_u as int, out@.len() as nat) == cand);
                }
                assert(out@.len() < p);
                let lasti = out@.len() - 1;
                let last = (out@[lasti])@;
                assert(last == self.next_k(rep_u as int, lasti as nat));
                assert(self.next_k(rep_u as int, out@.len() as nat) == self.enext(
                    self.next_k(rep_u as int, lasti as nat),
                ));
                assert(cand as int == self.enext(last));
                assert(self.eface(self.enext(last)) == self.eface(last));
                assert(self.eface(cand as int) == id@);
            }
            out.push(EdgeID(cand));
            let ghost oldlen = out@.len() - 1;
            cand = self.next_t(cand);
            proof {
                assert(self.next_k(rep_u as int, out@.len() as nat) == self.enext(
                    self.next_k(rep_u as int, oldlen as nat),
                ));
            }
        }
        proof {
            let repi = rep_u as int;
            let len = out@.len() as nat;
            assert(self.next_k(repi, len) == rep_u);
            // entries are pairwise distinct: a repeat would mean an earlier
            // return of the walk
            assert forall|k1: int, k2: int| 0 <= k1 < k2 < out@.len() implies out@[k1]
                != out@[k2] by {
                if out@[k1] == out@[k2] {
                    assert(self.next_k(repi, k1 as nat) == self.next_k(repi, k2 as nat));
                    lemma_next_k_add(*self, repi, k1 as nat, (len - k2) as nat);
                    lemma_next_k_add(*self, repi, k2 as nat, (len - k2) as nat);
                    assert(self.next_k(repi, (k1 + len - k2) as nat) == self.next_k(
                        self.next_k(repi, k1 as nat),
                        (len - k2) as nat,
                    ));
                    assert(self.next_k(repi, (k2 + len - k2) as nat) == self.next_k(
                        self.next_k(repi, k2 as nat),
                        (len - k2) as nat,
                    ));
                    assert(self.next_k(repi, (k1 + len - k2) as nat) == self.next_k(repi, len));
                    assert(1 <= k1 + len - k2 < len);
                    assert(false);
                }
            }
            // distinct in-range entries bound the length by the edge count
            let views = Seq::new(out@.len(), |k: int| (out@[k])@);
            assert(views.no_duplicates()) by {
                assert forall|k1: int, k2: int|
                    0 <= k1 < views.len() && 0 <= k2 < views.len() && k1 != k2 implies views[k1]
                    != views[k2] by {
                    if k1 < k2 {
                        assert(out@[k1] != out@[k2]);
                    } else {
                        assert(out@[k2] != out@[k1]);
                    }
                }
            }
            lemma_distinct_in_range_bounded(views, self.ne() as int);
            // every further step lands inside the list
            assert forall|k: nat|
                exists|x: int|
                    0 <= x < out@.len() && (out@[x])@ == #[trigger] self.next_k(repi, k) by {
                lemma_next_k_window(*self, repi, len, k);
                let x = k % len;
                assert((out@[x as int])@ == self.next_k(repi, k));
            }
        }
        out
    }

    /// The outgoing half-edges of a vertex, starting at its representative
    /// and rotating by twin-then-next until the fan closes.  The result is
    /// the whole fan cycle: the walk returns to the start right after the
    /// last entry and never earlier, every entry is rooted at the vertex,
    /// and every further rotation stays within the list.
    pub fn outgoing(&self, id: VertID) -> (r: Vec<EdgeID>)
        requires
            self.wf(),
            self.rep_ok(),
            self.next_injective(),
            id@ < self.nv(),
        ensures
            1 <= r@.len() <= self.ne(),
            (r@[0])@ == self.vrep_of(id@).unwrap(),
            forall|k: int|
                0 <= k < r@.len() ==> (#[trigger] r@[k])@ == self.rot_k(
                    self.vrep_of(id@).unwrap() as int,
                    k as nat,
                ),
            self.rot_k(self.vrep_of(id@).unwrap() as int, r@.len() as nat) == self.vrep_of(
                id@,
            ).unwrap(),
            forall|k: nat|
                1 <= k < r@.len() ==> #[trigger] self.rot_k(
                    self.vrep_of(id@).unwrap() as int,
                    k,
                ) != self.vrep_of(id@).unwrap(),
            forall|k: int|
                0 <= k < r@.len() ==> 0 <= (#[trigger] r@[k])@ < self.ne() && self.eroot(r@[k]@)
                    == id@,
            forall|k1: int, k2: int| 0 <= k1 < k2 < r@.len() ==> r@[k1] != r@[k2],
            forall|k: nat|
                exists|x: int|
                    0 <= x < r@.len() && (r@[x])@ == #[trigger] self.rot_k(
                        self.vrep_of(id@).unwrap() as int,
                        k,
                    ),
    {
        let repe = match self.vrep(id) {
            Ok(e) => e,
            Err(_) => { unreached() },
        };
        let rep_u = repe.0;
        proof {
            assert(rep_u == self.vrep_of(id@).unwrap());
            assert(rep_u < self.ne());
            assert(self.eroot(rep_u as int) == id@);
        }
        let ghost repi = rep_u as int;
        let mut out: Vec<EdgeID> = Vec::new();
        out.push(repe);
        let t0 = self.twin_t(rep_u);
        let mut cand: usize = self.next_t(t0);
        proof {
            assert(self.rot_k(repi, 0) == repi);
            assert(self.rot_k(repi, 1) == self.rot(self.rot_k(repi, 0)));
        }
        while cand != rep_u
            invariant
                self.wf(),
                self.rep_ok(),
                self.next_injective(),
                id@ < self.nv(),
                repe.0 == rep_u,
                repi == rep_u as int,
                rep_u < self.ne(),
                rep_u == self.vrep_of(id@).unwrap(),
                self.eroot(repi) == id@,
                1 <= out@.len() <= self.ne(),
                cand < self.ne(),
                cand == self.rot_k(repi, out@.len() as nat),
                forall|k: int|
                    0 <= k < out@.len() ==> (#[trigger] out@[k])@ == self.rot_k(repi, k as nat),
                forall|k: nat| 1 <= k < out@.len() ==> #[trigger] self.rot_k(repi, k) != rep_u,
                forall|k: int|
                    0 <= k < out@.len() ==> 0 <= (#[trigger] out@[k])@ < self.ne() && self.eroot(
                        out@[k]@,
                    ) == id@,
                forall|k1: int, k2: int| 0 <= k1 < k2 < out@.len() ==> out@[k1] != out@[k2],
            decreases self.ne() - out@.len(),
        {
            proof {
                let len = out@.len();
                // the candidate repeats nothing yet seen: a repeat inside
                // the list would mean an earlier closure of the fan
                assert forall|x: int| 0 <= x < len implies (out@[x])@ != cand by {
                    if (out@[x])@ == cand {
                        if x == 0 {
                            assert(cand as int == repi);
                        } else {
                            lemma_rot_k_cancel(*self, repi, len as nat, x as nat);
                            assert(self.rot_k(repi, (len - x) as nat) == repi);
                        }
                    }
                }
                // the candidate is rooted at the same vertex
                let lasti = len - 1;
                let last = (out@[lasti])@;
                assert(self.rot_k(repi, len as nat) == self.rot(self.rot_k(repi, lasti as nat)));
                assert(cand as int == self.rot(last));
                assert(self.eroot(self.enext(#[trigger] self.etwin(last))) == self.eroot(last));
                // pushing keeps the list within the edge count
                let views = Seq::new(len + 1, |k: int| if k < len { (out@[k])@ } else { cand as int });
                assert(views.no_duplicates()) by {
                    assert forall|k1: int, k2: int|
                        0 <= k1 < views.len() && 0 <= k2 < views.len() && k1 != k2 implies views[k1]
                        != views[k2] by {
                        if k1 < k2 {
                            if k2 == len {
                                assert((out@[k1])@ != cand);
                            } else {
                                assert(out@[k1] != out@[k2]);
                            }
                        } else {
                            if k1 == len {
                                assert((out@[k2])@ != cand);
                            } else {
                                assert(out@[k2] != out@[k1]);
                            }
                        }
                    }
                }
                lemma_rot_k_range(*self, repi, len as nat);
                lemma_distinct_in_range_bounded(views, self.ne() as int);
            }
            out.push(EdgeID(cand));
            let ghost oldlen = out@.len() - 1;
            let tc = self.twin_t(cand);
            cand = self.next_t(tc);
            proof {
                assert(self.rot_k(repi, out@.len() as nat) == self.rot(
                    self.rot_k(repi, oldlen as nat),
                ));
            }
        }
        proof {
            let len = out@.len() as nat;
            assert(self.rot_k(repi, len) == rep_u);
            assert forall|k: nat|
                exists|x: int|
                    0 <= x < out@.len() && (out@[x])@ == #[trigger] self.rot_k(repi, k) by {
                lemma_rot_k_window(*self, repi, len, k);
                let x = k % len;
                assert((out@[x as int])@ == self.rot_k(repi, k));
            }
        }
        out
    }

    /// The faces around a vertex: the incident face of each outgoing edge,
    /// in fan order.
    pub fn star(&self, id: VertID) -> (r: Vec<FaceID>)
        requires
            self.wf(),
            self.rep_ok(),
            self.next_injective(),
            id@ < self.nv(),
        ensures
            1 <= r@.len() <= self.ne(),
            self.rot_k(self.vrep_of(id@).unwrap() as int, r@.len() as nat) == self.vrep_of(
                id@,
            ).unwrap(),
            forall|k: nat|
                1 <= k < r@.len() ==> #[trigger] self.rot_k(
                    self.vrep_of(id@).unwrap() as int,
                    k,
                ) != self.vrep_of(id@).unwrap(),
            forall|k: int|
                0 <= k < r@.len() ==> (#[trigger] r@[k])@ == self.eface(
                    self.rot_k(self.vrep_of(id@).unwrap() as int, k as nat),
                ) && 0 <= r@[k]@ < self.nf(),
    {
        let es = self.outgoing(id);
        let mut out: Vec<FaceID> = Vec::new();
        let n = es.len();
        for k in 0..n
            invariant
                self.wf(),
                self.rep_ok(),
                self.next_injective(),
                id@ < self.nv(),
                n == es@.len(),
                out@.len() == k,
                forall|x: int|
                    0 <= x < es@.len() ==> 0 <= (#[trigger] es@[x])@ < self.ne() && es@[x]@
                        == self.rot_k(self.vrep_of(id@).unwrap() as int, x as nat),
                forall|x: int|
                    0 <= x < k ==> (#[trigger] out@[x])@ == self.eface(
                        self.rot_k(self.vrep_of(id@).unwrap() as int, x as nat),
                    ) && 0 <= out@[x]@ < self.nf(),
        {
            let f = self.face_t(es[k].0);
            out.push(FaceID(f));
        }
        out
    }

    /// The two faces on either side of a half-edge: its own and its twin's.
    pub fn faces(&self, id: EdgeID) -> (r: (FaceID, FaceID))
        requires
            self.wf(),
            id@ < self.ne(),
        ensures
            r.0@ == self.eface(id@),
            r.1@ == self.eface(self.etwin(id@)),
            0 <= r.0@ < self.nf(),
            0 <= r.1@ < self.nf(),
    {
        let f1 = self.face_t(id.0);
        let t = self.twin_t(id.0);
        let f2 = self.face_t(t);
        (FaceID(f1), FaceID(f2))
    }

    /// The neighboring vertices of a vertex: the far endpoint of each
    /// outgoing edge, in fan order.
    pub fn vneighbors(&self, id: VertID) -> (r: Vec<VertID>)
        requires
            self.wf(),
            self.rep_ok(),
            self.next_injective(),
            id@ < self.nv(),
        ensures
            1 <= r@.len() <= self.ne(),
            self.rot_k(self.vrep_of(id@).unwrap() as int, r@.len() as nat) == self.vrep_of(
                id@,
            ).unwrap(),
            forall|k: nat|
                1 <= k < r@.len() ==> #[trigger] self.rot_k(
                    self.vrep_of(id@).unwrap() as int,
                    k,
                ) != self.vrep_of(id@).unwrap(),
            forall|k: int|
                0 <= k < r@.len() ==> (#[trigger] r@[k])@ == self.eroot(
                    self.etwin(self.rot_k(self.vrep_of(id@).unwrap() as int, k as nat)),
                ) && 0 <= r@[k]@ < self.nv(),
    {
        let es = self.outgoing(id);
        let mut out: Vec<VertID> = Vec::new();
        let n = es.len();
        for k in 0..n
            invariant
                self.wf(),
                self.rep_ok(),
                self.next_injective(),
                id@ < self.nv(),
                n == es@.len(),
                out@.len() == k,
                forall|x: int|
                    0 <= x < es@.len() ==> 0 <= (#[trigger] es@[x])@ < self.ne() && es@[x]@
                        == self.rot_k(self.vrep_of(id@).unwrap() as int, x as nat),
                forall|x: int|
                    0 <= x < k ==> (#[trigger] out@[x])@ == self.eroot(
                        self.etwin(self.rot_k(self.vrep_of(id@).unwrap() as int, x as nat)),
                    ) && 0 <= out@[x]@ < self.nv(),
        {
            let t = self.twin_t(es[k].0);
            let v = self.root_t(t);
            out.push(VertID(v));
        }
        out
    }

    /// The neighboring faces of a face: the face across each boundary edge,
    /// in boundary order.
    pub fn fneighbors(&self, id: FaceID) -> (r: Vec<FaceID>)
        requires
            self.wf(),
            self.rep_ok(),
            id@ < self.nf(),
        ensures
            1 <= r@.len() <= self.ne(),
            self.next_k(self.frep_of(id@).unwrap() as int, r@.len() as nat) == self.frep_of(
                id@,
            ).unwrap(),
            forall|k: nat|
                1 <= k < r@.len() ==> #[trigger] self.next_k(
                    self.frep_of(id@).unwrap() as int,
                    k,
                ) != self.frep_of(id@).unwrap(),
            forall|k: int|
                0 <= k < r@.len() ==> (#[trigger] r@[k])@ == self.eface(
                    self.etwin(self.next_k(self.frep_of(id@).unwrap() as int, k as nat)),
                ) && 0 <= r@[k]@ < self.nf(),
    {
        let es = self.edges(id);
        let mut out: Vec<FaceID> = Vec::new();
        let n = es.len();
        for k in 0..n
            invariant
                self.wf(),
                self.rep_ok(),
                id@ < self.nf(),
                n == es@.len(),
                out@.len() == k,
                forall|x: int|
                    0 <= x < es@.len() ==> 0 <= (#[trigger] es@[x])@ < self.ne() && es@[x]@
                        == self.next_k(self.frep_of(id@).unwrap() as int, x as nat),
                forall|x: int|
                    0 <= x < k ==> (#[trigger] out@[x])@ == self.eface(
                        self.etwin(self.next_k(self.frep_of(id@).unwrap() as int, x as nat)),
                    ) && 0 <= out@[x]@ < self.nf(),
        {
            let t = self.twin_t(es[k].0);
            let f = self.face_t(t);
            out.push(FaceID(f));
        }
        out
    }

    /// The twin-linked pair of half-edges joining two vertices, if their
    /// fans contain one; the first half of the pair leaves `id_a`, the
    /// second leaves `id_b`.
    pub fn edge_between_verts(&self, id_a: VertID, id_b: VertID) -> (r: Option<(EdgeID, EdgeID)>)
        requires
            self.wf(),
            self.rep_ok(),
            self.next_injective(),
            id_a@ < self.nv(),
            id_b@ < self.nv(),
        ensures
            match r {
                Some(p) => 0 <= p.0@ < self.ne() && 0 <= p.1@ < self.ne() && self.etwin(p.0@)
                    == p.1@ && self.etwin(p.1@) == p.0@ && self.eroot(p.0@) == id_a@
                    && self.eroot(p.1@) == id_b@,
                None => forall|k1: nat, k2: nat|
                    self.etwin(#[trigger] self.rot_k(self.vrep_of(id_a@).unwrap() as int, k1))
                        != #[trigger] self.rot_k(self.vrep_of(id_b@).unwrap() as int, k2),
            },
    {
        let ea = self.outgoing(id_a);
        let eb = self.outgoing(id_b);
        let na = ea.len();
        let nb = eb.len();
        let ghost ra = self.vrep_of(id_a@).unwrap() as int;
        let ghost rb = self.vrep_of(id_b@).unwrap() as int;
        for x in 0..na
            invariant
                self.wf(),
                self.rep_ok(),
                self.next_injective(),
                id_a@ < self.nv(),
                id_b@ < self.nv(),
                na == ea@.len(),
                nb == eb@.len(),
                ra == self.vrep_of(id_a@).unwrap() as int,
                rb == self.vrep_of(id_b@).unwrap() as int,
                1 <= ea@.len(),
                1 <= eb@.len(),
                self.rot_k(ra, ea@.len() as nat) == self.vrep_of(id_a@).unwrap(),
                self.rot_k(rb, eb@.len() as nat) == self.vrep_of(id_b@).unwrap(),
                forall|k: int|
                    0 <= k < ea@.len() ==> 0 <= (#[trigger] ea@[k])@ < self.ne() && ea@[k]@
                        == self.rot_k(ra, k as nat) && self.eroot(ea@[k]@) == id_a@,
                forall|k: int|
                    0 <= k < eb@.len() ==> 0 <= (#[trigger] eb@[k])@ < self.ne() && eb@[k]@
                        == self.rot_k(rb, k as nat) && self.eroot(eb@[k]@) == id_b@,
                forall|x1: int, y1: int|
                    0 <= x1 < x && 0 <= y1 < eb@.len() ==> self.etwin((#[trigger] ea@[x1])@) != (
                    #[trigger] eb@[y1])@,
        {
            for y in 0..nb
                invariant
                    self.wf(),
                    self.rep_ok(),
                    self.next_injective(),
                    id_a@ < self.nv(),
                    id_b@ < self.nv(),
                    na == ea@.len(),
                    nb == eb@.len(),
                    x < na,
                    forall|k: int|
                        0 <= k < ea@.len() ==> 0 <= (#[trigger] ea@[k])@ < self.ne() && self.eroot(
                            ea@[k]@,
                        ) == id_a@,
                    forall|k: int|
                        0 <= k < eb@.len() ==> 0 <= (#[trigger] eb@[k])@ < self.ne() && self.eroot(
                            eb@[k]@,
                        ) == id_b@,
                    forall|y1: int|
                        0 <= y1 < y ==> self.etwin((ea@[x as int])@) != (#[trigger] eb@[y1])@,
            {
                let t = self.twin_t(ea[x].0);
                if t == eb[y].0 {
                    proof {
                        assert(self.etwin(self.etwin((ea@[x as int])@)) == (ea@[x as int])@);
                    }
                    return Some((ea[x], eb[y]));
                }
            }
        }
        proof {
            let la = ea@.len() as nat;
            let lb = eb@.len() as nat;
            assert forall|k1: nat, k2: nat|
                self.etwin(#[trigger] self.rot_k(ra, k1)) != #[trigger] self.rot_k(rb, k2) by {
                lemma_rot_k_window(*self, ra, la, k1);
                lemma_rot_k_window(*self, rb, lb, k2);
                let x1 = k1 % la;
                let y1 = k2 % lb;
                assert((ea@[x1 as int])@ == self.rot_k(ra, k1));
                assert((eb@[y1 as int])@ == self.rot_k(rb, k2));
                assert(self.etwin((ea@[x1 as int])@) != (eb@[y1 as int])@);
            }
        }
        None
    }

    /// The twin-linked pair of half-edges shared by two faces, if their
    /// boundaries contain one; the first half lies on `id_a`, the second on
    /// `id_b`.
    pub fn edge_between_faces(&self, id_a: FaceID, id_b: FaceID) -> (r: Option<(EdgeID, EdgeID)>)
        requires
            self.wf(),
            self.rep_ok(),
            id_a@ < self.nf(),
            id_b@ < self.nf(),
        ensures
            match r {
                Some(p) => 0 <= p.0@ < self.ne() && 0 <= p.1@ < self.ne() && self.etwin(p.0@)
                    == p.1@ && self.etwin(p.1@) == p.0@ && self.eface(p.0@) == id_a@
                    && self.eface(p.1@) == id_b@,
                None => forall|k1: nat, k2: nat|
                    self.etwin(#[trigger] self.next_k(self.frep_of(id_a@).unwrap() as int, k1))
                        != #[trigger] self.next_k(self.frep_of(id_b@).unwrap() as int, k2),
            },
    {
        let ea = self.edges(id_a);
        let eb = self.edges(id_b);
        let na = ea.len();
        let nb = eb.len();
        let ghost ra = self.frep_of(id_a@).unwrap() as int;
        let ghost rb = self.frep_of(id_b@).unwrap() as int;
        for x in 0..na
            invariant
                self.wf(),
                self.rep_ok(),
                id_a@ < self.nf(),
                id_b@ < self.nf(),
                na == ea@.len(),
                nb == eb@.len(),
                ra == self.frep_of(id_a@).unwrap() as int,
                rb == self.frep_of(id_b@).unwrap() as int,
                1 <= ea@.len(),
                1 <= eb@.len(),
                self.next_k(ra, ea@.len() as nat) == self.frep_of(id_a@).unwrap(),
                self.next_k(rb, eb@.len() as nat) == self.frep_of(id_b@).unwrap(),
                forall|k: int|
                    0 <= k < ea@.len() ==> 0 <= (#[trigger] ea@[k])@ < self.ne() && ea@[k]@
                        == self.next_k(ra, k as nat) && self.eface(ea@[k]@) == id_a@,
                forall|k: int|
                    0 <= k < eb@.len() ==> 0 <= (#[trigger] eb@[k])@ < self.ne() && eb@[k]@
                        == self.next_k(rb, k as nat) && self.eface(eb@[k]@) == id_b@,
                forall|x1: int, y1: int|
                    0 <= x1 < x && 0 <= y1 < eb@.len() ==> self.etwin((#[trigger] ea@[x1])@) != (
                    #[trigger] eb@[y1])@,
        {
            for y in 0..nb
                invariant
                    self.wf(),
                    self.rep_ok(),
                    id_a@ < self.nf(),
                    id_b@ < self.nf(),
                    na == ea@.len(),
                    nb == eb@.len(),
                    x < na,
                    forall|k: int|
                        0 <= k < ea@.len() ==> 0 <= (#[trigger] ea@[k])@ < self.ne() && self.eface(
                            ea@[k]@,
                        ) == id_a@,
                    forall|k: int|
                        0 <= k < eb@.len() ==> 0 <= (#[trigger] eb@[k])@ < self.ne() && self.eface(
                            eb@[k]@,
                        ) == id_b@,
                    forall|y1: int|
                        0 <= y1 < y ==> self.etwin((ea@[x as int])@) != (#[trigger] eb@[y1])@,
            {
                let t = self.twin_t(ea[x].0);
                if t == eb[y].0 {
                    proof {
                        assert(self.etwin(self.etwin((ea@[x as int])@)) == (ea@[x as int])@);
                    }
                    return Some((ea[x], eb[y]));
                }
            }
        }
        proof {
            let la = ea@.len() as nat;
            let lb = eb@.len() as nat;
            assert forall|k1: nat, k2: nat|
                self.etwin(#[trigger] self.next_k(ra, k1)) != #[trigger] self.next_k(rb, k2) by {
                lemma_next_k_window(*self, ra, la, k1);
                lemma_next_k_window(*self, rb, lb, k2);
                let x1 = k1 % la;
                let y1 = k2 % lb;
                assert((ea@[x1 as int])@ == self.next_k(ra, k1));
                assert((eb@[y1 as int])@ == self.next_k(rb, k2));
                assert(self.etwin((ea@[x1 as int])@) != (eb@[y1 as int])@);
            }
        }
        None
    }

    /// The vertex view of the mesh as a routing graph: the neighbors of a
    /// vertex are its adjacent vertices.
    pub fn neighbor_function_primal(&self, id: VertID) -> (r: Vec<VertID>)
        requires
            self.wf(),
            self.rep_ok(),
            self.next_injective(),
            id@ < self.nv(),
        ensures
            1 <= r@.len() <= self.ne(),
            forall|k: int|
                0 <= k < r@.len() ==> (#[trigger] r@[k])@ == self.eroot(
                    self.etwin(self.rot_k(self.vrep_of(id@).unwrap() as int, k as nat)),
                ) && 0 <= r@[k]@ < self.nv(),
    {
        self.vneighbors(id)
    }

    /// The half-edge view of the mesh as a routing graph: the successors of
    /// a directed edge are the edges leaving its head.
    pub fn neighbor_function_edgegraph(&self, id: EdgeID) -> (r: Vec<EdgeID>)
        requires
            self.wf(),
            self.rep_ok(),
            self.next_injective(),
            id@ < self.ne(),
        ensures
            1 <= r@.len() <= self.ne(),
            forall|k: int|
                0 <= k < r@.len() ==> (#[trigger] r@[k])@ == self.rot_k(
                    self.vrep_of(self.eroot(self.etwin(id@))).unwrap() as int,
                    k as nat,
                ) && 0 <= r@[k]@ < self.ne() && self.eroot(r@[k]@) == self.eroot(
                    self.etwin(id@),
                ),
    {
        let t = self.twin_t(id.0);
        let v = self.root_t(t);
        self.outgoing(VertID(v))
    }

    /// The edge-pair view of the mesh as a routing graph: from the pair
    /// ending in `cur`, cross to `twin(cur)` and continue along any other
    /// boundary edge of the face entered — a walk that never u-turns.
    pub fn neighbor_function_edgepairgraph(&self, pair: (EdgeID, EdgeID)) -> (r: Vec<
        (EdgeID, EdgeID),
    >)
        requires
            self.wf(),
            self.rep_ok(),
            pair.1@ < self.ne(),
        ensures
            forall|k: int|
                0 <= k < r@.len() ==> (#[trigger] r@[k]).0@ == self.etwin(pair.1@) && 0
                    <= r@[k].1@ < self.ne() && self.eface(r@[k].1@) == self.eface(
                    self.etwin(pair.1@),
                ) && r@[k].1@ != self.etwin(pair.1@),
            forall|k1: int, k2: int| 0 <= k1 < k2 < r@.len() ==> r@[k1].1 != r@[k2].1,
            forall|k: nat|
                #[trigger] self.next_k(
                    self.frep_of(self.eface(self.etwin(pair.1@))).unwrap() as int,
                    k,
                ) != self.etwin(pair.1@) ==> exists|x: int|
                    0 <= x < r@.len() && (r@[x]).1@ == self.next_k(
                        self.frep_of(self.eface(self.etwin(pair.1@))).unwrap() as int,
                        k,
                    ),
    {
        let t = self.twin_t(pair.1.0);
        let f = self.face_t(t);
        let te = EdgeID(t);
        let es = self.edges(FaceID(f));
        let ghost repi = self.frep_of(f as int).unwrap() as int;
        let mut out: Vec<(EdgeID, EdgeID)> = Vec::new();
        let ghost mut idxs: Seq<int> = Seq::empty();
        let n = es.len();
        for k in 0..n
            invariant
                self.wf(),
                self.rep_ok(),
                pair.1@ < self.ne(),
                t == self.etwin(pair.1@),
                t < self.ne(),
                te.0 == t,
                f == self.eface(t as int),
                f < self.nf(),
                repi == self.frep_of(f as int).unwrap() as int,
                n == es@.len(),
                out@.len() <= k,
                idxs.len() == out@.len(),
                forall|x: int|
                    0 <= x < es@.len() ==> 0 <= (#[trigger] es@[x])@ < self.ne() && es@[x]@
                        == self.next_k(repi, x as nat) && self.eface(es@[x]@) == f,
                forall|x1: int, x2: int| 0 <= x1 < x2 < es@.len() ==> es@[x1] != es@[x2],
                forall|x: int|
                    0 <= x < out@.len() ==> (#[trigger] out@[x]).0@ == self.etwin(pair.1@) && 0
                        <= out@[x].1@ < self.ne() && self.eface(out@[x].1@) == self.eface(
                        self.etwin(pair.1@),
                    ) && out@[x].1@ != self.etwin(pair.1@),
                forall|x: int|
                    0 <= x < idxs.len() ==> 0 <= #[trigger] idxs[x] < k && out@[x].1
                        == es@[idxs[x]],
                forall|x1: int, x2: int| 0 <= x1 < x2 < idxs.len() ==> idxs[x1] < idxs[x2],
                forall|x: int|
                    0 <= x < k && (#[trigger] es@[x])@ != t ==> exists|y: int|
                        0 <= y < out@.len() && (out@[y]).1 == es@[x],
        {
            let ghost out0 = out@;
            if es[k].0 != t {
                out.push((te, es[k]));
                proof {
                    idxs = idxs.push(k as int);
                }
            } else {
                proof {
                    assert((es@[k as int])@ == t);
                }
            }
            proof {
                assert forall|x: int|
                    0 <= x < k + 1 && (#[trigger] es@[x])@ != t implies exists|y: int|
                    0 <= y < out@.len() && (out@[y]).1 == es@[x] by {
                    if x == k {
                        assert((out@[out@.len() - 1]).1 == es@[x]);
                    } else {
                        let y = choose|y: int| 0 <= y < out0.len() && (out0[y]).1 == es@[x];
                        assert((out@[y]).1 == es@[x]);
                    }
                }
            }
        }
        proof {
            assert forall|x1: int, x2: int|
                0 <= x1 < x2 < out@.len() implies out@[x1].1 != out@[x2].1 by {
                assert(out@[x1].1 == es@[idxs[x1]]);
                assert(out@[x2].1 == es@[idxs[x2]]);
                assert(idxs[x1] < idxs[x2]);
            }
        }
        proof {
            assert(1 <= es@.len());
            assert(self.next_k(repi, es@.len() as nat) == self.frep_of(f as int).unwrap());
            assert forall|k: nat|
                #[trigger] self.next_k(repi, k) != self.etwin(pair.1@) implies exists|x: int|
                0 <= x < out@.len() && (out@[x]).1@ == self.next_k(repi, k) by {
                lemma_next_k_window(*self, repi, es@.len() as nat, k);
                let w = k % (es@.len() as nat);
                assert((es@[w as int])@ == self.next_k(repi, k));
                assert((es@[w as int])@ != t);
                let y = choose|y: int| 0 <= y < out@.len() && (out@[y]).1 == es@[w as int];
                assert((out@[y]).1@ == self.next_k(repi, k));
            }
        }
        out
    }

    /// The corner vertices of a face: the roots of its boundary edges, in
    /// boundary order.
    pub fn corners(&self, id: FaceID) -> (r: Vec<VertID>)
        requires
            self.wf(),
            self.rep_ok(),
            id@ < self.nf(),
        ensures
            1 <= r@.len() <= MAX_FACE_DEGREE,
            r@.len() <= self.ne(),
            self.next_k(self.frep_of(id@).unwrap() as int, r@.len() as nat) == self.frep_of(
                id@,
            ).unwrap(),
            forall|k: nat|
                1 <= k < r@.len() ==> #[trigger] self.next_k(
                    self.frep_of(id@).unwrap() as int,
                    k,
                ) != self.frep_of(id@).unwrap(),
            forall|k: int|
                0 <= k < r@.len() ==> (#[trigger] r@[k])@ == self.eroot(
                    self.next_k(self.frep_of(id@).unwrap() as int, k as nat),
                ) && 0 <= r@[k]@ < self.nv(),
    {
        let es = self.edges(id);
        let mut out: Vec<VertID> = Vec::new();
        let n = es.len();
        for k in 0..n
            invariant
                self.wf(),
                self.rep_ok(),
                id@ < self.nf(),
                n == es@.len(),
                out@.len() == k,
                forall|x: int|
                    0 <= x < es@.len() ==> 0 <= (#[trigger] es@[x])@ < self.ne() && es@[x]@
                        == self.next_k(self.frep_of(id@).unwrap() as int, x as nat),
                forall|x: int|
                    0 <= x < k ==> (#[trigger] out@[x])@ == self.eroot(
                        self.next_k(self.frep_of(id@).unwrap() as int, x as nat),
                    ) && 0 <= out@[x]@ < self.nv(),
        {
            let v = self.root_t(es[k].0);
            out.push(VertID(v));
        }
        out
    }
}

} // verus!
