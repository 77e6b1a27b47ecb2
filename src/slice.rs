use vstd::prelude::*;

use crate::cuts::{
    dedup_planes, deduplicated, duplicates, is_square, lemma_pair_distinct_normals_keeps_both,
    lemma_pair_same_normal_keeps_first, lemma_unflagged_within, unflagged_from,
};
use crate::error::Error;
use crate::mesh::Mesh;
use crate::model::{single_object, Model};

verus! {

/// The present values, in their order.
pub open spec fn somes<C>(outs: Seq<Option<C>>) -> Seq<C>
    decreases outs.len(),
{
    if outs.len() == 0 {
        Seq::empty()
    } else {
        let rest = somes(outs.drop_last());
        match outs.last() {
            Some(c) => rest.push(c),
            None => rest,
        }
    }
}

/// Each present value stands in some entry.
proof fn lemma_somes_from<C>(outs: Seq<Option<C>>, x: C)
    requires
        somes(outs).contains(x),
    ensures
        exists|k: int| 0 <= k < outs.len() && outs[k] == Some(x),
    decreases outs.len(),
{
    let rest = somes(outs.drop_last());
    if rest.contains(x) {
        lemma_somes_from(outs.drop_last(), x);
        let k = choose|k: int| 0 <= k < outs.len() - 1 && outs.drop_last()[k] == Some(x);
        assert(outs[k] == Some(x));
    } else {
        let last = outs.len() - 1;
        match outs.last() {
            Some(c) => {
                let i = choose|i: int| 0 <= i < rest.push(c).len() && rest.push(c)[i] == x;
                if i < rest.len() {
                    assert(rest.contains(x));
                }
                assert(outs[last] == Some(x));
            },
            None => {},
        }
    }
}

proof fn lemma_somes_len<C>(outs: Seq<Option<C>>)
    ensures
        somes(outs).len() <= outs.len(),
    decreases outs.len(),
{
    if outs.len() > 0 {
        lemma_somes_len(outs.drop_last());
    }
}

/// `planes` is what slicing `mesh` gives when `plane_of` turned the corners of each
/// triangle into `outs` (a candidate plane, or none for a triangle that gives no cut),
/// and `same_normal` said of each pair of candidates, earlier one first, what `table`
/// holds.
pub open spec fn is_slicing<P, C, F: Fn(P, P, P) -> Option<C>, G: Fn(&C, &C) -> bool>(
    mesh: Mesh<P>,
    plane_of: F,
    same_normal: G,
    outs: Seq<Option<C>>,
    table: Seq<Vec<bool>>,
    planes: Seq<C>,
) -> bool {
    let cands = somes(outs);
    &&& outs.len() == mesh.triangles@.len()
    &&& forall|k: int| 0 <= k < outs.len() ==> plane_of.ensures(mesh.corners_of(k), #[trigger] outs[k])
    &&& is_square(table, cands.len())
    &&& forall|i: int, j: int|
        0 <= i < j < cands.len() ==> same_normal.ensures((&cands[i], &cands[j]), #[trigger] table[i]@[j])
    &&& planes == deduplicated(cands, table)
    &&& planes.to_multiset() == unflagged_from(cands, duplicates(table), 0).to_multiset()
}

/// When the triangles of a mesh give two candidate planes whose normals are the same,
/// slicing keeps only the first of them.
pub proof fn lemma_two_candidates_same_normal<
    P,
    C,
    F: Fn(P, P, P) -> Option<C>,
    G: Fn(&C, &C) -> bool,
>(
    mesh: Mesh<P>,
    plane_of: F,
    same_normal: G,
    outs: Seq<Option<C>>,
    table: Seq<Vec<bool>>,
    planes: Seq<C>,
)
    requires
        is_slicing(mesh, plane_of, same_normal, outs, table, planes),
        somes(outs).len() == 2,
        table[0]@[1],
    ensures
        planes == seq![somes(outs)[0]],
{
    lemma_pair_same_normal_keeps_first(somes(outs), table);
}

/// When the triangles of a mesh give two candidate planes whose normals differ, slicing
/// keeps both, in the order of their triangles.
pub proof fn lemma_two_candidates_distinct_normals<
    P,
    C,
    F: Fn(P, P, P) -> Option<C>,
    G: Fn(&C, &C) -> bool,
>(
    mesh: Mesh<P>,
    plane_of: F,
    same_normal: G,
    outs: Seq<Option<C>>,
    table: Seq<Vec<bool>>,
    planes: Seq<C>,
)
    requires
        is_slicing(mesh, plane_of, same_normal, outs, table, planes),
        somes(outs).len() == 2,
        !table[0]@[1],
    ensures
        planes == somes(outs),
{
    lemma_pair_distinct_normals_keeps_both(somes(outs), table);
}

/// Slices a model of one object: each triangle's corners go to `plane_of`, which gives
/// the triangle's cutting plane or none (a degenerate triangle, or a plane that is no
/// cut); of candidates whose normals `same_normal` finds equal, only the first is kept.
pub fn slice_model<P: Copy, C, F: Fn(P, P, P) -> Option<C>, G: Fn(&C, &C) -> bool>(
    model: &Model<P>,
    plane_of: F,
    same_normal: G,
) -> (r: Result<Vec<C>, Error>)
    requires
        model.objects@.len() > 0,
        model.objects@.len() == 1 ==> model.objects@[0].mesh.wf(),
        forall|a: P, b: P, c: P| plane_of.requires((a, b, c)),
        forall|a: &C, b: &C| same_normal.requires((a, b)),
    ensures
        model.objects@.len() > 1 ==> r == Err::<Vec<C>, Error>(Error::TooManyModels),
        model.objects@.len() == 1 ==> r is Ok,
        r matches Ok(planes) ==> planes@.len() <= model.objects@[0].mesh.triangles@.len(),
        r matches Ok(planes) ==> forall|i: int|
            0 <= i < planes@.len() ==> exists|k: int|
                0 <= k < model.objects@[0].mesh.triangles@.len() && plane_of.ensures(
                    model.objects@[0].mesh.corners_of(k),
                    Some(#[trigger] planes@[i]),
                ),
        r matches Ok(planes) ==> exists|outs: Seq<Option<C>>, table: Seq<Vec<bool>>|
            is_slicing(model.objects@[0].mesh, plane_of, same_normal, outs, table, planes@),
{
    let object = match single_object(model) {
        Ok(o) => o,
        Err(e) => {
            return Err(e);
        },
    };
    let mesh = &object.mesh;
    assert(mesh.wf());
    let corners = mesh.triangle_corners();
    let mut cands: Vec<C> = Vec::new();
    let ghost mut outs: Seq<Option<C>> = Seq::empty();
    let mut k: usize = 0;
    while k < corners.len()
        invariant
            k <= corners@.len(),
            corners@.len() == mesh.triangles@.len(),
            forall|i: int| 0 <= i < corners@.len() ==> #[trigger] corners@[i] == mesh.corners_of(i),
            forall|a: P, b: P, c: P| plane_of.requires((a, b, c)),
            outs.len() == k,
            forall|i: int| 0 <= i < k ==> plane_of.ensures(mesh.corners_of(i), #[trigger] outs[i]),
            cands@ == somes(outs),
        decreases corners@.len() - k,
    {
        let (a, b, c) = corners[k];
        let out = plane_of(a, b, c);
        proof {
            let prev = outs;
            outs = outs.push(out);
            assert(outs.drop_last() =~= prev);
        }
        match out {
            Some(p) => {
                cands.push(p);
            },
            None => {},
        }
        k = k + 1;
    }
    let n = cands.len();
    let mut table: Vec<Vec<bool>> = Vec::new();
    let mut i: usize = 0;
    while i < n
        invariant
            n == cands@.len(),
            i <= n,
            table@.len() == i,
            forall|a: &C, b: &C| same_normal.requires((a, b)),
            forall|ii: int| 0 <= ii < i ==> (#[trigger] table@[ii])@.len() == n,
            forall|ii: int, jj: int|
                0 <= ii < jj < n && ii < i ==> same_normal.ensures(
                    (&cands@[ii], &cands@[jj]),
                    #[trigger] table@[ii]@[jj],
                ),
        decreases n - i,
    {
        let mut row: Vec<bool> = Vec::new();
        let mut j: usize = 0;
        while j < n
            invariant
                n == cands@.len(),
                i < n,
                j <= n,
                row@.len() == j,
                forall|a: &C, b: &C| same_normal.requires((a, b)),
                forall|jj: int|
                    0 <= jj < j && i < jj ==> same_normal.ensures(
                        (&cands@[i as int], &cands@[jj]),
                        #[trigger] row@[jj],
                    ),
            decreases n - j,
        {
            if i < j {
                let s = same_normal(&cands[i], &cands[j]);
                row.push(s);
            } else {
                row.push(false);
            }
            j = j + 1;
        }
        table.push(row);
        i = i + 1;
    }
    let ghost cands_view = cands@;
    let planes = dedup_planes(cands, &table);
    proof {
        assert forall|i: int| 0 <= i < planes@.len() implies exists|k: int|
            0 <= k < mesh.triangles@.len() && plane_of.ensures(
                mesh.corners_of(k),
                Some(#[trigger] planes@[i]),
            ) by {
            let x = planes@[i];
            assert(planes@.contains(x));
            planes@.to_multiset_ensures();
            let u = unflagged_from(cands_view, duplicates(table@), 0);
            u.to_multiset_ensures();
            assert(planes@.to_multiset().count(x) > 0);
            assert(u.to_multiset().count(x) > 0);
            assert(u.contains(x));
            lemma_unflagged_within(cands_view, duplicates(table@), 0, x);
            lemma_somes_from(outs, x);
        }
        lemma_somes_len(outs);
    }
    let ghost view = planes@;
    let r: Result<Vec<C>, Error> = Ok(planes);
    assert(r matches Ok(ps) && ps@ == view);
    assert(is_slicing(*mesh, plane_of, same_normal, outs, table@, view));
    r
}

} // verus!
