use tracer::bvh::{build_node, triangle_bounds, Bounds, Node, Tree, TriangleRef};
use tracer::geom::Vec3;
use tracer::primitive::{closest_hit, AggregatePrimitive, IntersectionRecord, Plane, Sphere, Triangle, Vertex};
use tracer::ray::Ray;

fn v(x: i64, y: i64, z: i64) -> Vec3 {
    Vec3::new(x, y, z)
}

fn tri(a: Vec3, b: Vec3, c: Vec3, n: Vec3) -> Triangle {
    Triangle::new(&vec![
        Vertex { pos: a, nrm: n },
        Vertex { pos: b, nrm: n },
        Vertex { pos: c, nrm: n },
    ])
}

fn same_t(a: &IntersectionRecord, b: &IntersectionRecord) -> bool {
    a.t_num * b.t_den == b.t_num * a.t_den
}

fn t_equals(a: &IntersectionRecord, num: i128, den: i128) -> bool {
    a.t_num * den == num * a.t_den
}

#[test]
fn triangle_hit_has_barycentrics_in_range() {
    let t = Triangle::new(&vec![
        Vertex { pos: v(0, 1, 0), nrm: v(1, 0, 0) },
        Vertex { pos: v(1, -1, 0), nrm: v(0, 1, 0) },
        Vertex { pos: v(-1, -1, 0), nrm: v(0, 0, 1) },
    ]);
    let ray = Ray::new(v(0, 0, 5), v(0, 0, -1));
    let hit = t.intersect(&ray).expect("the ray passes through the triangle");
    assert!(t_equals(&hit, 5, 1));
    // With unit-axis vertex normals the blended normal is (w, u, v) * den.
    let (w, u, vv) = hit.normal;
    assert!(u >= 0 && vv >= 0 && w >= 0);
    assert_eq!(w + u + vv, hit.t_den);
    assert!(u + vv <= hit.t_den);
}

#[test]
fn triangle_missed_outside_projection() {
    let t = tri(v(0, 1, 0), v(1, -1, 0), v(-1, -1, 0), v(0, 0, 1));
    assert!(t.intersect(&Ray::new(v(2, 0, 5), v(0, 0, -1))).is_none());
    assert!(t.intersect(&Ray::new(v(0, 2, 5), v(0, 0, -1))).is_none());
    assert!(t.intersect(&Ray::new(v(0, -2, 5), v(0, 0, -1))).is_none());
}

#[test]
fn triangle_behind_origin_is_missed() {
    let t = tri(v(0, 1, 0), v(1, -1, 0), v(-1, -1, 0), v(0, 0, 1));
    assert!(t.intersect(&Ray::new(v(0, 0, 5), v(0, 0, 1))).is_none());
}

#[test]
fn triangle_parallel_ray_is_missed() {
    let t = tri(v(0, 1, 0), v(1, -1, 0), v(-1, -1, 0), v(0, 0, 1));
    assert!(t.intersect(&Ray::new(v(-5, 0, 0), v(1, 0, 0))).is_none());
}

#[test]
fn triangle_distance_scales_with_direction_length() {
    let t = tri(v(0, 4, 0), v(4, -4, 0), v(-4, -4, 0), v(0, 0, 1));
    let hit = t.intersect(&Ray::new(v(0, 0, 6), v(0, 0, -2))).unwrap();
    assert!(t_equals(&hit, 3, 1));
}

#[test]
fn plane_hit_from_either_side() {
    let p = Plane { pos: v(0, 0, 0), nrm: v(0, 1, 0) };
    let hit = p.intersect(&Ray::new(v(0, 4, 0), v(0, -2, 0))).unwrap();
    assert!(t_equals(&hit, 2, 1));
    assert_eq!(hit.normal, (0, 1, 0));
    let back = p.intersect(&Ray::new(v(0, -5, 0), v(0, 1, 0))).unwrap();
    assert!(t_equals(&back, 5, 1));
    assert_eq!(back.normal, (0, 1, 0));
    // Behind the origin, and parallel.
    assert!(p.intersect(&Ray::new(v(0, 4, 0), v(0, 1, 0))).is_none());
    assert!(p.intersect(&Ray::new(v(0, 4, 0), v(1, 0, 0))).is_none());
}

#[test]
fn aggregate_keeps_nearest_hit() {
    let far = tri(v(0, 1, -4), v(1, -1, -4), v(-1, -1, -4), v(0, 0, 1));
    let near = tri(v(0, 1, 2), v(1, -1, 2), v(-1, -1, 2), v(0, 1, 0));
    let mut agg = AggregatePrimitive::new();
    agg.primitives.push(far);
    agg.primitives.push(near);
    let hit = agg.intersect(&Ray::new(v(0, 0, 5), v(0, 0, -1))).unwrap();
    assert!(t_equals(&hit, 3, 1));
    assert_eq!(hit.normal.1 > 0, true);
}

#[test]
fn aggregate_prefers_first_of_equal_hits() {
    let first = tri(v(0, 1, 0), v(1, -1, 0), v(-1, -1, 0), v(1, 0, 0));
    let second = tri(v(0, 1, 0), v(1, -1, 0), v(-1, -1, 0), v(0, 1, 0));
    let hit = closest_hit(&vec![first, second], &Ray::new(v(0, 0, 5), v(0, 0, -1))).unwrap();
    assert!(hit.normal.0 > 0 && hit.normal.1 == 0);
}

#[test]
fn aggregate_empty_misses() {
    let agg = AggregatePrimitive::new();
    assert!(agg.intersect(&Ray::new(v(0, 0, 5), v(0, 0, -1))).is_none());
}

#[test]
fn box_slab_test() {
    let b = Bounds { max: v(1, 1, 1), min: v(-1, -1, -1) };
    assert!(b.intersect(&Ray::new(v(0, 0, 5), v(0, 0, -1))));
    assert!(b.intersect(&Ray::new(v(5, 5, 5), v(-1, -1, -1))));
    assert!(!b.intersect(&Ray::new(v(3, 0, 5), v(0, 0, -1))));
    assert!(!b.intersect(&Ray::new(v(5, 5, 5), v(-1, 1, -1))));
    // A ray running along a face does not count as entering.
    assert!(!b.intersect(&Ray::new(v(1, 0, 5), v(0, 0, -1))));
}

#[test]
fn triangle_bounds_are_grown_by_one() {
    let t = tri(v(0, 3, 0), v(2, -1, 4), v(-5, -1, 1), v(0, 0, 1));
    let b = triangle_bounds(&t);
    assert_eq!(b.min, v(-6, -2, -1));
    assert_eq!(b.max, v(3, 4, 5));
}

struct Lcg(u64);

impl Lcg {
    fn next(&mut self, range: i64) -> i64 {
        self.0 = self.0.wrapping_mul(6364136223846793005).wrapping_add(1442695040888963407);
        ((self.0 >> 33) as i64).rem_euclid(2 * range + 1) - range
    }
}

fn soup(rng: &mut Lcg, n: usize) -> Vec<Triangle> {
    let mut out = Vec::new();
    for _ in 0..n {
        let cx = rng.next(200);
        let cy = rng.next(200);
        let cz = rng.next(200);
        let mut p = || v(cx + rng.next(30), cy + rng.next(30), cz + rng.next(30));
        let (a, b, c) = (p(), p(), p());
        out.push(tri(a, b, c, v(0, 0, 1)));
    }
    out
}

fn collect_refs(n: &Node, out: &mut Vec<TriangleRef>) {
    match n {
        Node::Internal { left, right, .. } => {
            collect_refs(left, out);
            collect_refs(right, out);
        }
        Node::Leaf { refs } => out.extend(refs.iter().cloned()),
    }
}

fn contains(outer: &Bounds, inner: &Bounds) -> bool {
    outer.min.x <= inner.min.x
        && outer.min.y <= inner.min.y
        && outer.min.z <= inner.min.z
        && inner.max.x <= outer.max.x
        && inner.max.y <= outer.max.y
        && inner.max.z <= outer.max.z
}

fn union(refs: &[TriangleRef]) -> Bounds {
    let mut b = refs[0].bounds;
    for r in refs {
        b.min = v(b.min.x.min(r.bounds.min.x), b.min.y.min(r.bounds.min.y), b.min.z.min(r.bounds.min.z));
        b.max = v(b.max.x.max(r.bounds.max.x), b.max.y.max(r.bounds.max.y), b.max.z.max(r.bounds.max.z));
    }
    b
}

fn check_boxes(n: &Node) -> usize {
    match n {
        Node::Internal { left_bounds, right_bounds, left, right } => {
            let mut l = Vec::new();
            collect_refs(left, &mut l);
            let mut r = Vec::new();
            collect_refs(right, &mut r);
            assert_eq!(*left_bounds, union(&l));
            assert_eq!(*right_bounds, union(&r));
            let n = l.len() + r.len();
            assert!(n > 3 && l.len() == n / 2);
            for x in &l {
                assert!(contains(left_bounds, &x.bounds));
            }
            for x in &r {
                assert!(contains(right_bounds, &x.bounds));
            }
            check_boxes(left) + check_boxes(right)
        }
        Node::Leaf { refs } => {
            assert!(refs.len() <= 3);
            for r in refs {
                assert_eq!(r.bounds, triangle_bounds(&r.tri_ref));
            }
            refs.len()
        }
    }
}

#[test]
fn tree_boxes_contain_their_subtrees() {
    let mut rng = Lcg(7);
    for n in [0usize, 1, 3, 4, 9, 57] {
        let tris = soup(&mut rng, n);
        let tree = Tree::new(AggregatePrimitive { primitives: tris });
        assert_eq!(check_boxes(&tree.root), n);
    }
}

#[test]
fn tree_agrees_with_aggregate() {
    let mut rng = Lcg(42);
    for round in 0..6 {
        let tris = soup(&mut rng, 20 + 15 * round);
        let agg = AggregatePrimitive { primitives: tris.clone() };
        let tree = Tree::new(AggregatePrimitive { primitives: tris });
        let mut hits = 0;
        for _ in 0..300 {
            let o = v(rng.next(300), rng.next(300), rng.next(300));
            let mut d = v(rng.next(40), rng.next(40), rng.next(40));
            if d == v(0, 0, 0) {
                d = v(1, 0, 0);
            }
            let ray = Ray::new(o, d);
            match (agg.intersect(&ray), tree.intersect(&ray)) {
                (None, None) => {}
                (Some(a), Some(b)) => {
                    hits += 1;
                    assert!(same_t(&a, &b));
                }
                _ => panic!("the tree and the scan disagree on whether the ray hits"),
            }
        }
        assert!(hits > 0);
    }
}

#[test]
fn tree_agrees_with_aggregate_on_aimed_rays() {
    let mut rng = Lcg(3);
    let tris = soup(&mut rng, 80);
    let agg = AggregatePrimitive { primitives: tris.clone() };
    let tree = Tree::new(AggregatePrimitive { primitives: tris.clone() });
    for t in &tris {
        let a = t.vert[0].pos;
        let b = t.vert[1].pos;
        let c = t.vert[2].pos;
        let target = v(a.x + b.x + c.x, a.y + b.y + c.y, a.z + b.z + c.z);
        let o = v(rng.next(300), rng.next(300), rng.next(300));
        let d = v(target.x - 3 * o.x, target.y - 3 * o.y, target.z - 3 * o.z);
        if d == v(0, 0, 0) {
            continue;
        }
        let ray = Ray::new(o, d);
        let x = agg.intersect(&ray);
        let y = tree.intersect(&ray);
        assert!(x.is_some());
        assert_eq!(x.is_some(), y.is_some());
        if let (Some(x), Some(y)) = (x, y) {
            assert!(same_t(&x, &y));
        }
    }
}

#[test]
fn small_sets_make_a_leaf() {
    let mut rng = Lcg(9);
    let refs: Vec<TriangleRef> = soup(&mut rng, 3)
        .into_iter()
        .map(|t| TriangleRef { bounds: triangle_bounds(&t), tri_ref: t })
        .collect();
    match build_node(refs) {
        Node::Leaf { refs } => assert_eq!(refs.len(), 3),
        Node::Internal { .. } => panic!("three triangles must make a leaf"),
    }
}

#[test]
fn larger_sets_split_at_the_middle() {
    let mut rng = Lcg(11);
    let refs: Vec<TriangleRef> = soup(&mut rng, 9)
        .into_iter()
        .map(|t| TriangleRef { bounds: triangle_bounds(&t), tri_ref: t })
        .collect();
    match build_node(refs) {
        Node::Internal { left, right, .. } => {
            let mut l = Vec::new();
            collect_refs(&left, &mut l);
            let mut r = Vec::new();
            collect_refs(&right, &mut r);
            assert_eq!(l.len(), 4);
            assert_eq!(r.len(), 5);
        }
        Node::Leaf { .. } => panic!("nine triangles must be split"),
    }
}

#[test]
fn sphere_hit_from_outside() {
    let s = Sphere::new(v(0, 0, 0), 1);
    let hit = s.intersect(&Ray::new(v(0, 0, 5), v(0, 0, -1))).unwrap();
    assert!(t_equals(&hit, 4, 1));
    // Hit point (0,0,1); the normal points from the center to it.
    assert_eq!(hit.normal.0, 0);
    assert_eq!(hit.normal.1, 0);
    assert!(hit.normal.2 > 0);
}

#[test]
fn sphere_hit_scaled_units() {
    let s = Sphere::new(v(0, 0, 0), 4096);
    let hit = s.intersect(&Ray::new(v(0, 0, 5 * 4096), v(0, 0, -16384))).unwrap();
    // Distance 4 scene units along a direction 4 units long: t = 1.
    assert!(t_equals(&hit, 1, 1));
    assert!(hit.normal.2 > 0 && hit.normal.0 == 0 && hit.normal.1 == 0);
}

#[test]
fn sphere_hit_from_inside_takes_far_root() {
    let s = Sphere::new(v(0, 0, 0), 2);
    let hit = s.intersect(&Ray::new(v(0, 0, 0), v(1, 0, 0))).unwrap();
    assert!(t_equals(&hit, 2, 1));
    // From inside, the normal points back towards the center.
    assert!(hit.normal.0 < 0);
}

#[test]
fn sphere_missed() {
    let s = Sphere::new(v(0, 0, 0), 1);
    assert!(s.intersect(&Ray::new(v(3, 0, 5), v(0, 0, -1))).is_none());
    assert!(s.intersect(&Ray::new(v(0, 0, 5), v(0, 0, 1))).is_none());
}

#[test]
fn sphere_irrational_root_is_rounded_towards_origin() {
    // Along x from (-10, 1, 0) the true hit is at x = -sqrt(3).
    let s = Sphere::new(v(0, 0, 0), 2);
    let hit = s.intersect(&Ray::new(v(-10, 1, 0), v(1, 0, 0))).unwrap();
    let t = hit.t_num as f64 / hit.t_den as f64;
    let exact = 10.0 - 3f64.sqrt();
    assert!(t <= exact && exact - t < 1.0);
}

#[test]
fn debug_counts_visited_boxes_and_hits() {
    let t = tri(v(0, 1, 0), v(1, -1, 0), v(-1, -1, 0), v(0, 0, 1));
    let tree = Tree::new(AggregatePrimitive { primitives: vec![t] });
    assert_eq!(tree.debug(&Ray::new(v(0, 0, 5), v(0, 0, -1))), (1, 1, 0));
    assert_eq!(tree.debug(&Ray::new(v(1, 1, 5), v(0, 0, -1))), (0, 1, 0));
    assert_eq!(tree.debug(&Ray::new(v(9, 9, 5), v(0, 0, -1))), (0, 0, 0));

    let mut rng = Lcg(5);
    let tree = Tree::new(AggregatePrimitive { primitives: soup(&mut rng, 40) });
    let mut hit_any = false;
    for _ in 0..200 {
        let ray = Ray::new(v(rng.next(300), rng.next(300), rng.next(300)), v(rng.next(9) + 10, rng.next(9), rng.next(9)));
        let (hits, tri_boxes, node_boxes) = tree.debug(&ray);
        assert!(hits <= tri_boxes);
        assert!(node_boxes <= 2 * 40);
        if tree.intersect(&ray).is_some() {
            hit_any = true;
            assert!(hits > 0 && node_boxes > 0);
        } else {
            assert_eq!(hits, 0);
        }
    }
    assert!(hit_any);
}

#[test]
fn sphere_hit_at_origin_on_surface() {
    let s = Sphere::new(v(0, 0, 0), 1);
    let hit = s.intersect(&Ray::new(v(0, 0, 1), v(0, 0, 1))).unwrap();
    // t = 0 is the farther root here, so the normal points to the center.
    assert_eq!(hit.t_num, 0);
    assert!(hit.normal.2 < 0);
    // Aimed inwards from the surface, the nearer root t = 0 is taken.
    let hit = s.intersect(&Ray::new(v(0, 0, 1), v(0, 0, -1))).unwrap();
    assert_eq!(hit.t_num, 0);
    assert!(hit.normal.2 > 0);
}

#[test]
fn split_uses_an_axis_of_greatest_extent() {
    // Extents: x 10, y 10, z 5; the split runs along x.
    let corners = [v(0, 0, 0), v(10, 0, 5), v(0, 10, 3), v(10, 10, 1)];
    let refs: Vec<TriangleRef> = corners
        .iter()
        .map(|c| {
            let t = tri(*c, *c, *c, v(0, 0, 1));
            TriangleRef { bounds: triangle_bounds(&t), tri_ref: t }
        })
        .collect();
    match build_node(refs) {
        Node::Internal { left, right, .. } => {
            let mut l = Vec::new();
            collect_refs(&left, &mut l);
            let mut r = Vec::new();
            collect_refs(&right, &mut r);
            assert!(l.iter().all(|x| x.tri_ref.vert[0].pos.x == 0));
            assert!(r.iter().all(|x| x.tri_ref.vert[0].pos.x == 10));
        }
        Node::Leaf { .. } => panic!("four triangles must be split"),
    }
}

#[test]
fn sphere_behind_origin_is_missed() {
    // Both roots are negative; the rounded square root must not turn the
    // far one into a hit at t = 0.
    let s = Sphere::new(v(1, 0, -2), 2);
    assert!(s.intersect(&Ray::new(v(0, 0, 0), v(0, 0, 1))).is_none());
    let s = Sphere::new(v(0, 0, -10), 3);
    assert!(s.intersect(&Ray::new(v(0, 0, 0), v(0, 0, 1))).is_none());
}

#[test]
fn sphere_from_inside_hits_far_side() {
    let s = Sphere::new(v(0, 0, 0), 5);
    let hit = s.intersect(&Ray::new(v(0, 0, 3), v(0, 0, -1))).unwrap();
    assert!(t_equals(&hit, 8, 1));
    assert!(hit.normal.2 > 0);
}
