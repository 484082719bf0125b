use tracer::geom::Vec3;
use tracer::integrator::{light_index, pick_light, Path};
use tracer::mesh::{check_layout, load_mesh_bvh, load_mesh_group, MeshError};
use tracer::object::{AggregateObject, Object, Shape, DEFAULT_BRDF};
use tracer::primitive::{AggregatePrimitive, Plane, Triangle, Vertex};
use tracer::ray::Ray;

fn v(x: i64, y: i64, z: i64) -> Vec3 {
    Vec3::new(x, y, z)
}

fn square_positions() -> Vec<Vec3> {
    vec![v(-1, -1, 0), v(1, -1, 0), v(1, 1, 0), v(-1, 1, 0)]
}

#[test]
fn group_uses_file_normals() {
    let normals = vec![v(0, 0, 7), v(0, 0, 9)];
    let polys = vec![
        vec![(0, Some(0)), (1, Some(1)), (2, Some(0))],
        vec![(0, Some(1)), (2, Some(1)), (3, Some(1))],
    ];
    let mesh = load_mesh_group(&square_positions(), &normals, &polys).unwrap();
    assert_eq!(mesh.primitives.len(), 2);
    let t = &mesh.primitives[0];
    assert_eq!(t.vert[0].pos, v(-1, -1, 0));
    assert_eq!(t.vert[1].nrm, v(0, 0, 9));
    assert_eq!(t.vert[2].nrm, v(0, 0, 7));
    assert_eq!(mesh.primitives[1].vert[2].pos, v(-1, 1, 0));
}

#[test]
fn group_falls_back_to_face_normals() {
    let normals = vec![v(0, 0, 7)];
    let polys = vec![
        vec![(0, Some(0)), (1, None), (2, Some(0))],
        vec![(0, Some(0)), (2, Some(0)), (3, Some(0))],
    ];
    let mesh = load_mesh_group(&square_positions(), &normals, &polys).unwrap();
    // (1,-1,0)-(-1,-1,0) = (2,0,0); (1,1,0)-(-1,-1,0) = (2,2,0); cross = (0,0,4).
    for k in 0..3 {
        assert_eq!(mesh.primitives[0].vert[k].nrm, v(0, 0, 4));
    }
    // Once a corner lacked a normal, later polygons use face normals too.
    // (1,1,0)-(-1,-1,0) = (2,2,0); (-1,1,0)-(-1,-1,0) = (0,2,0); cross = (0,0,4).
    for k in 0..3 {
        assert_eq!(mesh.primitives[1].vert[k].nrm, v(0, 0, 4));
    }
}

#[test]
fn group_rejects_non_triangles() {
    let polys = vec![
        vec![(0, None), (1, None), (2, None)],
        vec![(0, None), (1, None), (2, None), (3, None)],
    ];
    assert_eq!(
        load_mesh_group(&square_positions(), &vec![], &polys).err(),
        Some(MeshError::MalformedPolygon(1))
    );
}

#[test]
fn group_rejects_bad_indices() {
    let polys = vec![vec![(0, None), (9, None), (2, None)]];
    assert_eq!(
        load_mesh_group(&square_positions(), &vec![], &polys).err(),
        Some(MeshError::MalformedPolygon(0))
    );
    let polys = vec![vec![(0, Some(0)), (1, Some(5)), (2, Some(0))]];
    assert_eq!(
        load_mesh_group(&square_positions(), &vec![v(0, 0, 1)], &polys).err(),
        Some(MeshError::MalformedPolygon(0))
    );
}

#[test]
fn group_of_nothing_is_empty() {
    let mesh = load_mesh_group(&vec![], &vec![], &vec![]).unwrap();
    assert!(mesh.primitives.is_empty());
}

fn quad_mesh(z: i64) -> AggregatePrimitive {
    let pos = vec![v(-4, -4, z), v(4, -4, z), v(4, 4, z), v(-4, 4, z)];
    let polys = vec![vec![(0, None), (1, None), (2, None)], vec![(0, None), (2, None), (3, None)]];
    load_mesh_group(&pos, &vec![], &polys).unwrap()
}

#[test]
fn mesh_under_hierarchy_keeps_brdf_and_hits() {
    let mut obj = Object::new(Shape::Mesh(quad_mesh(0)));
    assert_eq!(obj.brdf, DEFAULT_BRDF);
    obj.brdf = 4;
    let ray = Ray::new(v(1, 1, 10), v(0, 0, -1));
    let flat = obj.intersect(&ray).unwrap();
    let bvh = load_mesh_bvh(obj);
    assert_eq!(bvh.brdf, 4);
    assert!(matches!(bvh.primitive, Shape::Bvh(_)));
    let hit = bvh.intersect(&ray).unwrap();
    assert_eq!(hit.brdf, 4);
    assert_eq!(hit.t_num * flat.t_den, flat.t_num * hit.t_den);
    assert_eq!(hit.t_num, 10 * hit.t_den);
}

#[test]
fn load_mesh_bvh_leaves_planes_alone() {
    let obj = Object { primitive: Shape::Plane(Plane { pos: v(0, 0, 0), nrm: v(0, 0, 1) }), brdf: 2 };
    let out = load_mesh_bvh(obj);
    assert!(matches!(out.primitive, Shape::Plane(_)));
    assert_eq!(out.brdf, 2);
}

#[test]
fn scene_reports_nearest_object() {
    let mut scene = AggregateObject::new();
    scene.primitives.push(Object { primitive: Shape::Mesh(quad_mesh(-3)), brdf: 1 });
    scene.primitives.push(Object { primitive: Shape::Mesh(quad_mesh(2)), brdf: 2 });
    scene.primitives.push(Object { primitive: Shape::Mesh(quad_mesh(2)), brdf: 3 });
    let hit = scene.intersect(&Ray::new(v(0, 1, 6), v(0, 0, -2))).unwrap();
    assert_eq!(hit.brdf, 2);
    assert_eq!(hit.t_num, 2 * hit.t_den);
    assert!(scene.intersect(&Ray::new(v(9, 9, 6), v(0, 0, -1))).is_none());
}

#[test]
fn path_in_empty_scene_ends_at_once() {
    let scene = AggregateObject::new();
    let mut path = Path::new(Ray::new(v(0, 0, 0), v(0, 0, 1)), 5);
    assert!(path.next_hit(&scene).is_none());
    assert!(path.done);
    assert!(path.next_hit(&scene).is_none());
}

#[test]
fn path_stops_at_depth_bound() {
    let mut scene = AggregateObject::new();
    scene.primitives.push(Object::new(Shape::Plane(Plane { pos: v(0, 0, -5), nrm: v(0, 0, 1) })));
    scene.primitives.push(Object::new(Shape::Plane(Plane { pos: v(0, 0, 5), nrm: v(0, 0, -1) })));
    let mut path = Path::new(Ray::new(v(0, 0, 0), v(0, 0, -1)), 3);
    let mut hits = 0;
    let mut down = true;
    for _ in 0..10 {
        match path.next_hit(&scene) {
            Some(_) => {
                hits += 1;
                down = !down;
                let z = if down { 1 } else { -1 };
                path.continue_with(Ray::new(v(0, 0, 0), v(0, 0, z)));
            }
            None => break,
        }
    }
    assert_eq!(hits, 3);
    assert!(path.done);
}

#[test]
fn path_with_zero_depth_yields_nothing() {
    let mut scene = AggregateObject::new();
    scene.primitives.push(Object::new(Shape::Plane(Plane { pos: v(0, 0, -5), nrm: v(0, 0, 1) })));
    let mut path = Path::new(Ray::new(v(0, 0, 0), v(0, 0, -1)), 0);
    assert!(path.next_hit(&scene).is_none());
}

#[test]
fn light_index_wraps_draw() {
    assert_eq!(light_index(1, 12345), 0);
    assert_eq!(light_index(3, 7), 1);
    assert_eq!(light_index(4, u64::MAX), 3);
}

#[test]
fn pick_light_stays_in_range() {
    let mut seen = [false; 3];
    for _ in 0..200 {
        let i = pick_light(3);
        assert!(i < 3);
        seen[i] = true;
    }
    assert!(seen.iter().all(|s| *s));
}

#[test]
fn triangle_new_copies_vertices() {
    let verts = vec![
        Vertex { pos: v(1, 2, 3), nrm: v(0, 0, 1) },
        Vertex { pos: v(4, 5, 6), nrm: v(0, 1, 0) },
        Vertex { pos: v(7, 8, 9), nrm: v(1, 0, 0) },
    ];
    let t = Triangle::new(&verts);
    assert_eq!(t.vert[1], verts[1]);
    assert_eq!(t.vert[2].pos, v(7, 8, 9));
}

#[test]
fn layout_needs_objects_and_groups() {
    assert_eq!(check_layout(0, 0, false), Err(MeshError::ObjectCount));
    assert_eq!(check_layout(2, 1, true), Err(MeshError::ObjectCount));
    assert_eq!(check_layout(2, 3, false), Ok(()));
    assert_eq!(check_layout(1, 0, false), Err(MeshError::GroupCount));
    assert_eq!(check_layout(1, 2, true), Err(MeshError::GroupCount));
    assert_eq!(check_layout(1, 1, true), Ok(()));
}
