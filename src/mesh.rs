//! Turning the polygons of a parsed mesh file into triangles, and the
//! meshes built from them.
use vstd::prelude::*;

use crate::bvh::Tree;
use crate::geom::{cross, vsub, within, Vec3, V3, COORD_MAX, NORMAL_MAX};
use crate::object::{Object, Shape};
use crate::primitive::{all_wf, AggregatePrimitive, Triangle, Vertex};

verus! {

/// One corner of a polygon: the index of its position and, where the file
/// gives one, the index of its normal.
pub type Corner = (usize, Option<usize>);

/// Why a mesh could not be assembled.
#[derive(Clone, Copy, Debug, PartialEq, Eq, Structural)]
pub enum MeshError {
    /// The polygon at this index is not a triangle, or one of its indices
    /// is out of range.
    MalformedPolygon(usize),
    /// The file holds no object, or more than one where one is required.
    ObjectCount,
    /// The first object holds no group, or more than one where one is
    /// required.
    GroupCount,
}

/// Checks the layout of a mesh file: it needs at least one object whose
/// first holds at least one group, and exactly one of each when `exactly_one`.
pub fn check_layout(objects: usize, groups: usize, exactly_one: bool) -> (r: Result<(), MeshError>)
    ensures
        r == if (exactly_one && objects != 1) || objects < 1 {
            Err(MeshError::ObjectCount)
        } else if (exactly_one && groups != 1) || groups < 1 {
            Err(MeshError::GroupCount)
        } else {
            Ok(())
        },
{
    if (exactly_one && objects != 1) || objects < 1 {
        Err(MeshError::ObjectCount)
    } else if (exactly_one && groups != 1) || groups < 1 {
        Err(MeshError::GroupCount)
    } else {
        Ok(())
    }
}

/// Every polygon before `k` gives a normal at every corner. Once a corner
/// lacks one, face normals are used from then on.
pub open spec fn normals_before(polys: Seq<Seq<Corner>>, k: int) -> bool {
    forall|j: int, i: int| 0 <= j < k && 0 <= i < polys[j].len() ==> (#[trigger] polys[j][i]).1.is_some()
}

/// The polygon `poly` gives a normal at every corner up to `i`.
pub open spec fn normals_upto(poly: Seq<Corner>, i: int) -> bool {
    forall|m: int| 0 <= m <= i ==> (#[trigger] poly[m]).1.is_some()
}

/// Whether the file's normals are used for the polygon at `k`.
pub open spec fn uses_normals(polys: Seq<Seq<Corner>>, k: int) -> bool {
    normals_before(polys, k) && normals_upto(polys[k], polys[k].len() - 1)
}

/// The polygon at `k` is a triangle whose indices are in range: every
/// position index, and every normal index that is read.
pub open spec fn poly_ok(positions: Seq<Vec3>, normals: Seq<Vec3>, polys: Seq<Seq<Corner>>, k: int) -> bool {
    let poly = polys[k];
    &&& poly.len() == 3
    &&& forall|i: int| 0 <= i < 3 ==> (#[trigger] poly[i]).0 < positions.len()
    &&& forall|i: int|
        0 <= i < 3 && normals_before(polys, k) && normals_upto(poly, i) ==> (#[trigger] poly[i]).1.unwrap()
            < normals.len()
}

/// The corner lists of a sequence of polygons.
pub open spec fn corners(polys: Seq<Vec<Corner>>) -> Seq<Seq<Corner>> {
    polys.map_values(|p: Vec<Corner>| p@)
}

/// The face normal of the triangle `a b c`, unnormalised.
pub open spec fn face_normal(a: V3, b: V3, c: V3) -> V3 {
    cross(vsub(b, a), vsub(c, a))
}

/// The triangle made from the (well-formed) polygon at `k`.
pub open spec fn poly_triangle(positions: Seq<Vec3>, normals: Seq<Vec3>, polys: Seq<Seq<Corner>>, k: int) -> (
    V3,
    V3,
    V3,
    V3,
    V3,
    V3,
) {
    let poly = polys[k];
    let a = positions[poly[0].0 as int]@;
    let b = positions[poly[1].0 as int]@;
    let c = positions[poly[2].0 as int]@;
    if uses_normals(polys, k) {
        (a, b, c, normals[poly[0].1.unwrap() as int]@, normals[poly[1].1.unwrap() as int]@,
            normals[poly[2].1.unwrap() as int]@)
    } else {
        let n = face_normal(a, b, c);
        (a, b, c, n, n, n)
    }
}

/// The positions, then the normals, of the three vertices of `tri`.
pub open spec fn triangle_model(tri: Triangle) -> (V3, V3, V3, V3, V3, V3) {
    (tri.v(0).pos@, tri.v(1).pos@, tri.v(2).pos@, tri.v(0).nrm@, tri.v(1).nrm@, tri.v(2).nrm@)
}

pub open spec fn positions_wf(positions: Seq<Vec3>) -> bool {
    forall|i: int| 0 <= i < positions.len() ==> within((#[trigger] positions[i])@, COORD_MAX as int)
}

pub open spec fn normals_wf(normals: Seq<Vec3>) -> bool {
    forall|i: int| 0 <= i < normals.len() ==> within((#[trigger] normals[i])@, NORMAL_MAX as int)
}

fn face_normal_exec(a: &Vec3, b: &Vec3, c: &Vec3) -> (r: Vec3)
    requires
        within(a@, COORD_MAX as int),
        within(b@, COORD_MAX as int),
        within(c@, COORD_MAX as int),
    ensures
        r@ == face_normal(a@, b@, c@),
        within(r@, NORMAL_MAX as int),
{
    let e1x = b.x - a.x;
    let e1y = b.y - a.y;
    let e1z = b.z - a.z;
    let e2x = c.x - a.x;
    let e2y = c.y - a.y;
    let e2z = c.z - a.z;
    let ghost m: int = 2 * COORD_MAX as int;
    proof {
        crate::geom::lemma_mul_within(e1y as int, e2z as int, m, m);
        crate::geom::lemma_mul_within(e1z as int, e2y as int, m, m);
        crate::geom::lemma_mul_within(e1z as int, e2x as int, m, m);
        crate::geom::lemma_mul_within(e1x as int, e2z as int, m, m);
        crate::geom::lemma_mul_within(e1x as int, e2y as int, m, m);
        crate::geom::lemma_mul_within(e1y as int, e2x as int, m, m);
    }
    Vec3 { x: e1y * e2z - e1z * e2y, y: e1z * e2x - e1x * e2z, z: e1x * e2y - e1y * e2x }
}

/// Builds the triangles of one polygon group. Corner normals come from the
/// file until the first corner that lacks one; from that polygon on, every
/// triangle takes its face normal at all three vertices. Fails at the first
/// polygon that is not a triangle or refers outside the given data.
pub fn load_mesh_group(positions: &Vec<Vec3>, normals: &Vec<Vec3>, polys: &Vec<Vec<Corner>>) -> (r: Result<
    AggregatePrimitive,
    MeshError,
>)
    requires
        positions_wf(positions@),
        normals_wf(normals@),
    ensures
        match r {
            Ok(mesh) => {
                &&& mesh.wf()
                &&& mesh.primitives@.len() == polys@.len()
                &&& forall|k: int|
                    0 <= k < polys@.len() ==> poly_ok(positions@, normals@, corners(polys@), k)
                        && triangle_model(#[trigger] mesh.primitives@[k]) == poly_triangle(
                        positions@,
                        normals@,
                        corners(polys@),
                        k,
                    )
            },
            Err(MeshError::ObjectCount) | Err(MeshError::GroupCount) => false,
            Err(MeshError::MalformedPolygon(k)) => {
                &&& k < polys@.len()
                &&& !poly_ok(positions@, normals@, corners(polys@), k as int)
                &&& forall|j: int| 0 <= j < k ==> #[trigger] poly_ok(positions@, normals@, corners(polys@), j)
            },
        },
{
    let ghost ps = corners(polys@);
    let mut has_normal = true;
    let mut aggregate = AggregatePrimitive::new();
    let mut k: usize = 0;
    while k < polys.len()
        invariant
            k <= polys.len(),
            ps == corners(polys@),
            ps.len() == polys@.len(),
            positions_wf(positions@),
            normals_wf(normals@),
            has_normal == normals_before(ps, k as int),
            all_wf(aggregate.primitives@),
            aggregate.primitives@.len() == k,
            forall|j: int| 0 <= j < k ==> #[trigger] poly_ok(positions@, normals@, ps, j),
            forall|j: int| 0 <= j < k ==> triangle_model(#[trigger] aggregate.primitives@[j])
                == poly_triangle(positions@, normals@, ps, j),
        decreases polys.len() - k,
    {
        let poly = &polys[k];
        assert(ps[k as int] == poly@);
        if poly.len() != 3 {
            return Err(MeshError::MalformedPolygon(k));
        }
        let mut vert: Vec<Vertex> = Vec::new();
        let mut v_pos: Vec<Vec3> = Vec::new();
        let mut v_nrm: Vec<Vec3> = Vec::new();
        let mut i: usize = 0;
        while i < 3
            invariant
                i <= 3,
                poly@.len() == 3,
                ps == corners(polys@),
                ps.len() == polys@.len(),
                k < polys@.len(),
                ps[k as int] == poly@,
                forall|j: int| 0 <= j < k ==> #[trigger] poly_ok(positions@, normals@, ps, j),
                positions_wf(positions@),
                normals_wf(normals@),
                v_pos@.len() == i,
                forall|m: int| 0 <= m < i ==> (#[trigger] poly@[m]).0 < positions@.len() && v_pos@[m]
                    == positions@[poly@[m].0 as int],
                has_normal == (normals_before(ps, k as int) && normals_upto(poly@, i - 1)),
                has_normal ==> v_nrm@.len() == i,
                has_normal ==> forall|m: int| 0 <= m < i ==> (#[trigger] poly@[m]).1.unwrap() < normals@.len()
                    && v_nrm@[m] == normals@[poly@[m].1.unwrap() as int],
                normals_before(ps, k as int) ==> forall|m: int|
                    0 <= m < i && normals_upto(poly@, m) ==> (#[trigger] poly@[m]).1.unwrap() < normals@.len(),
            decreases 3 - i,
        {
            let (pos_index, nrm_index) = poly[i];
            if pos_index >= positions.len() {
                assert(!(poly@[i as int].0 < positions@.len()));
                return Err(MeshError::MalformedPolygon(k));
            }
            v_pos.push(positions[pos_index]);
            if has_normal {
                match nrm_index {
                    Some(n) => {
                        if n >= normals.len() {
                            assert(normals_upto(poly@, i as int));
                            assert(!(poly@[i as int].1.unwrap() < normals@.len()));
                            return Err(MeshError::MalformedPolygon(k));
                        }
                        v_nrm.push(normals[n]);
                    },
                    None => {
                        has_normal = false;
                    },
                }
            }
            i = i + 1;
        }
        proof {
            assert(positions_wf(positions@));
            assert(within(positions@[poly@[0].0 as int]@, COORD_MAX as int));
            assert(within(positions@[poly@[1].0 as int]@, COORD_MAX as int));
            assert(within(positions@[poly@[2].0 as int]@, COORD_MAX as int));
            assert(has_normal == uses_normals(ps, k as int));
        }
        if !has_normal {
            let nrm = face_normal_exec(&v_pos[0], &v_pos[1], &v_pos[2]);
            v_nrm = vec![nrm, nrm, nrm];
        }
        let mut m: usize = 0;
        while m < 3
            invariant
                m <= 3,
                v_pos@.len() == 3,
                v_nrm@.len() == 3,
                vert@.len() == m,
                forall|q: int| 0 <= q < m ==> (#[trigger] vert@[q]).pos == v_pos@[q] && vert@[q].nrm == v_nrm@[q],
            decreases 3 - m,
        {
            vert.push(Vertex { pos: v_pos[m], nrm: v_nrm[m] });
            m = m + 1;
        }
        let triangle = Triangle::new(&vert);
        proof {
            assert(poly_ok(positions@, normals@, ps, k as int));
            assert(triangle_model(triangle) == poly_triangle(positions@, normals@, ps, k as int));
            if has_normal {
                assert(normals_wf(normals@));
                assert(within(normals@[poly@[0].1.unwrap() as int]@, NORMAL_MAX as int));
                assert(within(normals@[poly@[1].1.unwrap() as int]@, NORMAL_MAX as int));
                assert(within(normals@[poly@[2].1.unwrap() as int]@, NORMAL_MAX as int));
            }
            assert(triangle.wf());
            assert(has_normal == normals_before(ps, k + 1));
        }
        let ghost before = aggregate.primitives@;
        aggregate.primitives.push(triangle);
        proof {
            assert forall|j: int| 0 <= j < k + 1 implies triangle_model(#[trigger] aggregate.primitives@[j])
                == poly_triangle(positions@, normals@, ps, j) by {
                if j < k {
                    assert(aggregate.primitives@[j] == before[j]);
                }
            }
            assert forall|j: int| 0 <= j < aggregate.primitives@.len() implies (#[trigger] aggregate.primitives@[j]).wf() by {
                if j < k {
                    assert(aggregate.primitives@[j] == before[j]);
                }
            }
        }
        k = k + 1;
    }
    Ok(aggregate)
}

/// Puts the triangles of a mesh under a bounding volume hierarchy, keeping
/// the object's BRDF. An object that is not a plain mesh is returned as it is.
pub fn load_mesh_bvh(mesh: Object) -> (r: Object)
    requires
        mesh.wf(),
    ensures
        r.brdf == mesh.brdf,
        r.wf(),
        match mesh.primitive {
            Shape::Mesh(agg) => match r.primitive {
                Shape::Bvh(tree) => tree.tris().to_multiset() == agg.primitives@.to_multiset(),
                _ => false,
            },
            _ => r == mesh,
        },
{
    let brdf = mesh.brdf;
    match mesh.primitive {
        Shape::Mesh(agg) => Object { primitive: Shape::Bvh(Tree::new(agg)), brdf },
        other => Object { primitive: other, brdf },
    }
}

} // verus!
