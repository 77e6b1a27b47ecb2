use vstd::prelude::*;

use crate::error::Error;

verus! {

/// A face of a mesh: three indices into the mesh's vertex list.
#[derive(Debug, PartialEq, Eq, Structural, Clone, Copy)]
pub struct Triangle {
    pub v1: usize,
    pub v2: usize,
    pub v3: usize,
}

impl Triangle {
    /// Each of the three indices names a vertex of a list of `n` vertices.
    pub open spec fn within(self, n: nat) -> bool {
        self.v1 < n && self.v2 < n && self.v3 < n
    }

    /// Whether each of the three indices is below `n`.
    pub fn fits(&self, n: usize) -> (r: bool)
        ensures
            r == self.within(n as nat),
    {
        self.v1 < n && self.v2 < n && self.v3 < n
    }
}

/// A solid's surface: an ordered vertex list and an ordered list of triangles over it.
/// The vertex type is left to the caller (a point in space).
pub struct Mesh<P> {
    pub vertices: Vec<P>,
    pub triangles: Vec<Triangle>,
}

impl<P> Mesh<P> {
    /// Every triangle refers to vertices that the mesh has.
    pub open spec fn wf(&self) -> bool {
        forall|k: int|
            0 <= k < self.triangles@.len() ==> (#[trigger] self.triangles@[k]).within(
                self.vertices@.len(),
            )
    }

    /// The three corners of the `k`-th triangle, in the triangle's order.
    pub open spec fn corners_of(&self, k: int) -> (P, P, P) {
        let t = self.triangles@[k];
        (self.vertices@[t.v1 as int], self.vertices@[t.v2 as int], self.vertices@[t.v3 as int])
    }

    /// Tells whether every triangle refers to vertices that the mesh has.
    pub fn is_well_formed(&self) -> (r: bool)
        ensures
            r == self.wf(),
    {
        let n = self.vertices.len();
        let mut k: usize = 0;
        while k < self.triangles.len()
            invariant
                k <= self.triangles@.len(),
                n == self.vertices@.len(),
                forall|i: int| 0 <= i < k ==> (#[trigger] self.triangles@[i]).within(n as nat),
            decreases self.triangles@.len() - k,
        {
            if !self.triangles[k].fits(n) {
                return false;
            }
            k = k + 1;
        }
        true
    }

    pub fn num_vertices(&self) -> (r: usize)
        ensures
            r == self.vertices@.len(),
    {
        self.vertices.len()
    }

    pub fn num_triangles(&self) -> (r: usize)
        ensures
            r == self.triangles@.len(),
    {
        self.triangles.len()
    }
}

/// `sums[i]` is what `accumulate` gave when it took in the first `i` vertices, one at a
/// time, starting from `zero`.
pub open spec fn is_fold<P, S, A: Fn(S, P) -> S>(
    vs: Seq<P>,
    zero: S,
    accumulate: A,
    sums: Seq<S>,
) -> bool {
    &&& sums.len() == vs.len() + 1
    &&& sums[0] == zero
    &&& forall|i: int|
        0 <= i < vs.len() ==> accumulate.ensures((sums[i], vs[i]), #[trigger] sums[i + 1])
}

/// `picks[i]` is the best vertex among the first `i + 1`, when `at_least` answered
/// `outcomes[i]` on the distance of vertex `i` against that of the best before it. The
/// scan starts at vertex 0; a later vertex at least as far takes the place, so the last
/// of equally far vertices wins.
pub open spec fn is_scan<D, G: Fn(D, D) -> bool>(
    dists: Seq<D>,
    at_least: G,
    picks: Seq<usize>,
    outcomes: Seq<bool>,
) -> bool {
    &&& picks.len() == dists.len()
    &&& outcomes.len() == dists.len()
    &&& dists.len() > 0 ==> picks[0] == 0
    &&& forall|i: int|
        1 <= i < dists.len() ==> {
            &&& at_least.ensures(
                (dists[i], dists[picks[i - 1] as int]),
                #[trigger] outcomes[i],
            )
            &&& picks[i] == if outcomes[i] {
                i as usize
            } else {
                picks[i - 1]
            }
        }
}

impl<P: Copy> Mesh<P> {
    /// The corners of each triangle, one entry per triangle, in the order of the triangles.
    pub fn triangle_corners(&self) -> (r: Vec<(P, P, P)>)
        requires
            self.wf(),
        ensures
            r@.len() == self.triangles@.len(),
            forall|k: int| 0 <= k < r@.len() ==> #[trigger] r@[k] == self.corners_of(k),
    {
        let mut r: Vec<(P, P, P)> = Vec::new();
        let mut k: usize = 0;
        while k < self.triangles.len()
            invariant
                self.wf(),
                k <= self.triangles@.len(),
                r@.len() == k,
                forall|i: int| 0 <= i < k ==> #[trigger] r@[i] == self.corners_of(i),
            decreases self.triangles@.len() - k,
        {
            let t = self.triangles[k];
            assert(t.within(self.vertices@.len()));
            let c = (self.vertices[t.v1], self.vertices[t.v2], self.vertices[t.v3]);
            r.push(c);
            k = k + 1;
        }
        r
    }

    /// The mean of the vertices: `accumulate` takes them in one at a time, in order, starting
    /// from `zero`, and `divide` splits the total by their count. A mesh without vertices
    /// has no centroid.
    pub fn centroid<S: Copy, A: Fn(S, P) -> S, M: Fn(S, usize) -> P>(
        &self,
        zero: S,
        accumulate: A,
        divide: M,
    ) -> (r: Result<P, Error>)
        requires
            forall|s: S, p: P| accumulate.requires((s, p)),
            forall|s: S, n: usize| divide.requires((s, n)),
        ensures
            self.vertices@.len() == 0 ==> r == Err::<P, Error>(Error::EmptyMesh),
            self.vertices@.len() > 0 ==> r is Ok,
            r matches Ok(c) ==> exists|sums: Seq<S>|
                is_fold(self.vertices@, zero, accumulate, sums) && divide.ensures(
                    (sums.last(), self.vertices@.len() as usize),
                    c,
                ),
    {
        let n = self.vertices.len();
        if n == 0 {
            return Err(Error::EmptyMesh);
        }
        let mut total: S = zero;
        let ghost mut sums: Seq<S> = seq![zero];
        let mut i: usize = 0;
        while i < n
            invariant
                n == self.vertices@.len(),
                i <= n,
                forall|s: S, p: P| accumulate.requires((s, p)),
                sums.len() == i + 1,
                sums[0] == zero,
                total == sums.last(),
                forall|j: int|
                    0 <= j < i ==> accumulate.ensures((sums[j], self.vertices@[j]), #[trigger] sums[j + 1]),
            decreases n - i,
        {
            let next = accumulate(total, self.vertices[i]);
            proof {
                let prev = sums;
                sums = sums.push(next);
                assert forall|j: int| 0 <= j < i + 1 implies sums[j] == #[trigger] prev[j] by {}
            }
            total = next;
            i = i + 1;
        }
        let c = divide(total, n);
        assert(is_fold(self.vertices@, zero, accumulate, sums));
        Ok(c)
    }

    /// Anchors the mesh at a corner: `dist` gives each vertex's distance along the chosen
    /// direction, the vertex that `furthest_vertex` picks becomes the anchor, and `shift`
    /// moves every vertex by the vector from the anchor to the origin. The triangles stay
    /// as they are.
    pub fn normalize<D: Copy, FD: Fn(P) -> D, G: Fn(D, D) -> bool, T: Fn(P, P) -> P>(
        &mut self,
        dist: FD,
        at_least: G,
        shift: T,
    )
        requires
            forall|p: P| dist.requires((p,)),
            forall|a: D, b: D| at_least.requires((a, b)),
            forall|p: P, a: P| shift.requires((p, a)),
        ensures
            final(self).triangles@ == old(self).triangles@,
            final(self).vertices@.len() == old(self).vertices@.len(),
            exists|dists: Seq<D>, picks: Seq<usize>, outcomes: Seq<bool>|
                {
                    &&& dists.len() == old(self).vertices@.len()
                    &&& forall|i: int|
                        0 <= i < dists.len() ==> dist.ensures(
                            (old(self).vertices@[i],),
                            #[trigger] dists[i],
                        )
                    &&& is_scan(dists, at_least, picks, outcomes)
                    &&& forall|i: int|
                        0 <= i < dists.len() ==> shift.ensures(
                            (old(self).vertices@[i], old(self).vertices@[picks.last() as int]),
                            #[trigger] final(self).vertices@[i],
                        )
                },
    {
        let n = self.vertices.len();
        let mut dists: Vec<D> = Vec::new();
        let mut i: usize = 0;
        while i < n
            invariant
                n == self.vertices@.len(),
                i <= n,
                dists@.len() == i,
                forall|p: P| dist.requires((p,)),
                forall|j: int| 0 <= j < i ==> dist.ensures((self.vertices@[j],), #[trigger] dists@[j]),
            decreases n - i,
        {
            let d = dist(self.vertices[i]);
            dists.push(d);
            i = i + 1;
        }
        let pick = furthest_vertex(&dists, at_least);
        let ghost (picks, outcomes) = choose|picks: Seq<usize>, outcomes: Seq<bool>|
            is_scan(dists@, at_least, picks, outcomes) && (n > 0 ==> pick == Some(picks.last()));
        let k = match pick {
            Some(k) => k,
            None => {
                return;
            },
        };
        let anchor = self.vertices[k];
        let ghost before = self.vertices@;
        let mut i: usize = 0;
        while i < n
            invariant
                n == self.vertices@.len(),
                n == before.len(),
                i <= n,
                self.triangles@ == old(self).triangles@,
                before == old(self).vertices@,
                anchor == before[picks.last() as int],
                forall|p: P, a: P| shift.requires((p, a)),
                forall|j: int| i <= j < n ==> self.vertices@[j] == before[j],
                forall|j: int|
                    0 <= j < i ==> shift.ensures((before[j], anchor), #[trigger] self.vertices@[j]),
            decreases n - i,
        {
            let moved = shift(self.vertices[i], anchor);
            self.vertices.set(i, moved);
            i = i + 1;
        }
        assert(is_scan(dists@, at_least, picks, outcomes));
    }
}

/// The vertex that anchoring a mesh moves to the origin, given each vertex's distance
/// along the chosen direction: scanning in order from vertex 0, each later vertex at
/// least as far as the best so far becomes the best, so the last of equally far vertices
/// wins. `None` only for a mesh without vertices.
pub fn furthest_vertex<D: Copy, G: Fn(D, D) -> bool>(dists: &Vec<D>, at_least: G) -> (r: Option<
    usize,
>)
    requires
        forall|a: D, b: D| at_least.requires((a, b)),
    ensures
        dists@.len() == 0 <==> r is None,
        r matches Some(k) ==> k < dists@.len(),
        exists|picks: Seq<usize>, outcomes: Seq<bool>|
            is_scan(dists@, at_least, picks, outcomes) && (dists@.len() > 0 ==> r == Some(
                picks.last(),
            )),
{
    let n = dists.len();
    if n == 0 {
        assert(is_scan(dists@, at_least, Seq::<usize>::empty(), Seq::<bool>::empty()));
        return None;
    }
    let mut best: usize = 0;
    let mut best_dist: D = dists[0];
    let ghost mut picks: Seq<usize> = seq![0usize];
    let ghost mut outcomes: Seq<bool> = seq![true];
    let mut i: usize = 1;
    while i < n
        invariant
            n == dists@.len(),
            1 <= i <= n,
            forall|a: D, b: D| at_least.requires((a, b)),
            picks.len() == i,
            outcomes.len() == i,
            picks[0] == 0,
            best == picks.last(),
            best < i,
            best_dist == dists@[best as int],
            forall|j: int| 0 <= j < i ==> picks[j] < n,
            forall|j: int|
                1 <= j < i ==> {
                    &&& at_least.ensures(
                        (dists@[j], dists@[picks[j - 1] as int]),
                        #[trigger] outcomes[j],
                    )
                    &&& picks[j] == if outcomes[j] {
                        j as usize
                    } else {
                        picks[j - 1]
                    }
                },
        decreases n - i,
    {
        let d = dists[i];
        let b = at_least(d, best_dist);
        if b {
            best = i;
            best_dist = d;
        }
        proof {
            let prev = picks;
            outcomes = outcomes.push(b);
            picks = picks.push(best);
            assert(picks[i as int - 1] == prev.last());
            assert forall|j: int| 0 <= j < i implies picks[j] == #[trigger] prev[j] by {}
        }
        i = i + 1;
    }
    assert(is_scan(dists@, at_least, picks, outcomes));
    Some(best)
}

} // verus!
