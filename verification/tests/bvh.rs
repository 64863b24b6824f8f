use pbr::bounds::{Axis, Bounds3};
use pbr::bvh::{BuildNode, Bvh, LNode, LNodeData, Primitive, SplitMethod};
use pbr::vector::Vector3;
use std::sync::Arc;

#[derive(Debug, PartialEq)]
struct Cube {
    id: usize,
    min: (i32, i32, i32),
    size: i32,
}

impl Primitive for Cube {
    fn world_bounds_spec(&self) -> Bounds3<i32> {
        self.world_bounds()
    }

    fn world_bounds(&self) -> Bounds3<i32> {
        Bounds3 {
            p_min: Vector3::new(self.min.0, self.min.1, self.min.2),
            p_max: Vector3::new(self.min.0 + self.size, self.min.1 + self.size, self.min.2 + self.size),
        }
    }
}

fn cube(id: usize, x: i32, y: i32, z: i32, size: i32) -> Arc<Cube> {
    Arc::new(Cube { id, min: (x, y, z), size })
}

fn bounds(a: (i32, i32, i32), b: (i32, i32, i32)) -> Bounds3<i32> {
    Bounds3 { p_min: Vector3::new(a.0, a.1, a.2), p_max: Vector3::new(b.0, b.1, b.2) }
}

/// Checks the depth-first layout from `offset`; returns the number of nodes
/// and the range of primitives covered.
fn check_layout(nodes: &[LNode], offset: usize, leaf_ranges: &mut Vec<(usize, usize)>) -> usize {
    match nodes[offset].data {
        LNodeData::Leaf { primitives_offset, num_prims } => {
            assert!(num_prims >= 1);
            leaf_ranges.push((primitives_offset, num_prims));
            1
        }
        LNodeData::Interior { second_child_offset, .. } => {
            let first = check_layout(nodes, offset + 1, leaf_ranges);
            assert_eq!(second_child_offset, offset + 1 + first);
            let second = check_layout(nodes, second_child_offset, leaf_ranges);
            1 + first + second
        }
    }
}

fn contains(outer: &Bounds3<i32>, inner: &Bounds3<i32>) -> bool {
    outer.p_min.x <= inner.p_min.x
        && outer.p_min.y <= inner.p_min.y
        && outer.p_min.z <= inner.p_min.z
        && inner.p_max.x <= outer.p_max.x
        && inner.p_max.y <= outer.p_max.y
        && inner.p_max.z <= outer.p_max.z
}

fn check_bvh(bvh: &Bvh<Cube>, prims: &[Arc<Cube>]) {
    let nodes = bvh.get_nodes();
    let mut ranges = Vec::new();
    assert_eq!(check_layout(nodes, 0, &mut ranges), nodes.len());
    // The leaves cover the ordered primitives without gaps or overlap.
    ranges.sort();
    let mut next = 0;
    for (start, n) in ranges {
        assert_eq!(start, next);
        next += n;
    }
    assert_eq!(next, prims.len());
    // The ordered primitives are the primitives, reordered.
    let mut ids: Vec<usize> = bvh.get_primitives().iter().map(|p| p.id).collect();
    ids.sort();
    assert_eq!(ids, (0..prims.len()).collect::<Vec<_>>());
    // The root encloses every primitive.
    let root = bvh.world_bounds();
    for p in prims {
        assert!(contains(&root, &p.world_bounds()));
    }
}

fn scene() -> Vec<Arc<Cube>> {
    let mut prims = Vec::new();
    let mut id = 0;
    for x in 0..5 {
        for y in 0..4 {
            prims.push(cube(id, x * 10, y * 7, (x * y) % 3, 2));
            id += 1;
        }
    }
    prims
}

#[test]
fn sah_bvh_is_well_formed() {
    let prims = scene();
    let bvh = Bvh::new(4, &prims, SplitMethod::Sah);
    check_bvh(&bvh, &prims);
    assert_eq!(bvh.world_bounds(), bounds((0, 0, 0), (42, 23, 4)));
    assert_eq!(bvh.get_max_prims_per_node(), 4);
}

#[test]
fn middle_bvh_is_well_formed() {
    let prims = scene();
    let bvh = Bvh::new(1, &prims, SplitMethod::Middle);
    check_bvh(&bvh, &prims);
}

#[test]
fn single_primitive_is_one_leaf() {
    let prims = vec![cube(0, 1, 2, 3, 4)];
    let bvh = Bvh::new(300, &prims, SplitMethod::EqualCounts);
    check_bvh(&bvh, &prims);
    assert_eq!(bvh.get_nodes().len(), 1);
    assert_eq!(bvh.get_max_prims_per_node(), 255);
    match bvh.get_nodes()[0].data {
        LNodeData::Leaf { primitives_offset, num_prims } => {
            assert_eq!((primitives_offset, num_prims), (0, 1));
        }
        _ => panic!("expected a leaf"),
    }
}

#[test]
fn coinciding_centroids_make_a_leaf() {
    let prims = vec![cube(0, 0, 0, 0, 2), cube(1, 0, 0, 0, 2), cube(2, -1, -1, -1, 4)];
    let bvh = Bvh::new(1, &prims, SplitMethod::EqualCounts);
    check_bvh(&bvh, &prims);
    assert_eq!(bvh.get_nodes().len(), 1);
}

#[test]
fn two_primitives_split_in_order() {
    let prims = vec![cube(0, 10, 0, 0, 1), cube(1, 0, 0, 0, 1)];
    let bvh = Bvh::new(1, &prims, SplitMethod::Sah);
    check_bvh(&bvh, &prims);
    assert_eq!(bvh.get_nodes().len(), 3);
    match bvh.get_nodes()[0].data {
        LNodeData::Interior { axis, second_child_offset } => {
            assert_eq!(axis, Axis::X);
            assert_eq!(second_child_offset, 2);
        }
        _ => panic!("expected an interior node"),
    }
}

#[test]
fn build_nodes_union_their_children() {
    let a = BuildNode::leaf(0, 2, bounds((0, 0, 0), (1, 1, 1)));
    let b = BuildNode::leaf(2, 1, bounds((-3, 5, 0), (0, 6, 2)));
    let node = BuildNode::interior(Axis::Y, Box::new(a), Box::new(b));
    assert_eq!(*node.bounds(), bounds((-3, 0, 0), (1, 6, 2)));
    let mut nodes = Vec::new();
    assert_eq!(Bvh::<Cube>::flatten(&node, &mut nodes), 0);
    assert_eq!(nodes.len(), 3);
    match nodes[0].data {
        LNodeData::Interior { second_child_offset, axis } => {
            assert_eq!(second_child_offset, 2);
            assert_eq!(axis, Axis::Y);
        }
        _ => panic!("expected an interior node"),
    }
    match nodes[2].data {
        LNodeData::Leaf { primitives_offset, num_prims } => {
            assert_eq!((primitives_offset, num_prims), (2, 1));
        }
        _ => panic!("expected a leaf"),
    }
}

#[test]
fn empty_bounds_are_neutral_for_union() {
    let b = bounds((-4, 2, 9), (5, 3, 10));
    assert_eq!(Bounds3::<i32>::union(&Bounds3::<i32>::new(), &b), b);
    assert_eq!(bounds((0, 0, 0), (2, 3, 4)).surface_area(), 2 * (6 + 8 + 12));
}

fn holds(b: &Bounds3<i32>, p: (i32, i32, i32)) -> bool {
    b.p_min.x <= p.0 && p.0 <= b.p_max.x && b.p_min.y <= p.1 && p.1 <= b.p_max.y && b.p_min.z <= p.2
        && p.2 <= b.p_max.z
}

#[test]
fn intersect_p_finds_exactly_the_primitives_holding_a_point() {
    let prims = scene();
    for method in [SplitMethod::Sah, SplitMethod::Middle] {
        let bvh = Bvh::new(2, &prims, method);
        for x in -2..45 {
            for y in -2..26 {
                for z in [-1, 0, 2, 5] {
                    let p = (x, y, z);
                    let expected = prims.iter().any(|c| holds(&c.world_bounds(), p));
                    for neg in [[false, false, false], [true, true, true], [true, false, true]] {
                        let got = bvh.intersect_p(neg, |b: &Bounds3<i32>| holds(b, p), |c: &Arc<Cube>| {
                            holds(&c.world_bounds(), p)
                        });
                        assert_eq!(got, expected, "point {:?}", p);
                    }
                }
            }
        }
    }
}

#[test]
fn intersect_p_skips_subtrees_whose_box_is_missed() {
    let prims = scene();
    let bvh = Bvh::new(1, &prims, SplitMethod::Middle);
    let tests = std::cell::Cell::new(0usize);
    let got = bvh.intersect_p([false; 3], |_b: &Bounds3<i32>| false, |_c: &Arc<Cube>| {
        tests.set(tests.get() + 1);
        true
    });
    assert!(!got);
    assert_eq!(tests.get(), 0);
    let got = bvh.intersect_p([false; 3], |_b: &Bounds3<i32>| true, |_c: &Arc<Cube>| {
        tests.set(tests.get() + 1);
        true
    });
    assert!(got);
    assert_eq!(tests.get(), 1);
}

/// A ray from `(origin, y, z)` along +x: the distance at which it enters the
/// box, if it meets it within `lim`.
fn ray_box(b: &Bounds3<i32>, origin: i32, y: i32, z: i32, lim: i64) -> Option<i64> {
    if b.p_min.y <= y && y <= b.p_max.y && b.p_min.z <= z && z <= b.p_max.z && origin <= b.p_max.x {
        let t = (b.p_min.x.max(origin) - origin) as i64;
        if t <= lim {
            return Some(t);
        }
    }
    None
}

/// Nearest hit of the ray against the cubes of `bvh`, and the final limit.
fn nearest(bvh: &Bvh<Cube>, neg: [bool; 3], origin: i32, y: i32, z: i32, lim: i64) -> (Option<usize>, i64) {
    bvh.intersect(
        neg,
        lim,
        |b: &Bounds3<i32>, l: i64| ray_box(b, origin, y, z, l).is_some(),
        |c: &Arc<Cube>, l: i64| ray_box(&c.world_bounds(), origin, y, z, l).map(|t| (c.id, t)),
    )
}

#[test]
fn intersect_returns_the_nearest_hit_and_narrows_the_limit() {
    // Hits at distances 1 and 5, whatever order the walk takes.
    let prims = vec![cube(0, 5, 0, 0, 2), cube(1, 1, 0, 0, 2)];
    let bvh = Bvh::new(1, &prims, SplitMethod::Middle);
    for neg in [[false; 3], [true; 3]] {
        assert_eq!(nearest(&bvh, neg, 0, 1, 1, 100), (Some(1), 1));
        // Under a limit short of every hit nothing is found and the limit stays.
        assert_eq!(nearest(&bvh, neg, 0, 1, 1, 0), (None, 0));
        // A limit between the two hits finds only the nearer one.
        assert_eq!(nearest(&bvh, neg, 0, 1, 1, 3), (Some(1), 1));
        // A ray that misses both cubes.
        assert_eq!(nearest(&bvh, neg, 0, 9, 9, 100), (None, 100));
    }
}

#[test]
fn intersect_matches_the_nearest_cube_on_a_scene() {
    let prims = scene();
    for method in [SplitMethod::Sah, SplitMethod::Middle] {
        let bvh = Bvh::new(2, &prims, method);
        for y in -1..25 {
            for z in [0, 1, 2, 3] {
                for lim in [5i64, 20, 1000] {
                    let origin = -3;
                    let best = prims
                        .iter()
                        .filter_map(|c| ray_box(&c.world_bounds(), origin, y, z, lim))
                        .min();
                    for neg in [[false; 3], [true; 3], [true, false, true]] {
                        let (hit, t) = nearest(&bvh, neg, origin, y, z, lim);
                        match best {
                            Some(d) => {
                                assert_eq!(t, d);
                                let c = prims.iter().find(|c| c.id == hit.unwrap()).unwrap();
                                assert_eq!(ray_box(&c.world_bounds(), origin, y, z, lim), Some(d));
                            }
                            None => assert_eq!((hit, t), (None, lim)),
                        }
                    }
                }
            }
        }
    }
}

#[test]
fn intersect_skips_boxes_beyond_the_current_limit() {
    // Cubes along the ray; once the nearest is found, farther boxes are not
    // entered, so few primitive tests run.
    let prims: Vec<Arc<Cube>> = (0..16).map(|i| cube(i, (i as i32) * 4, 0, 0, 2)).collect();
    let bvh = Bvh::new(1, &prims, SplitMethod::Middle);
    let tests = std::cell::Cell::new(0usize);
    let got = bvh.intersect(
        [false; 3],
        1000,
        |b: &Bounds3<i32>, l: i64| ray_box(b, 0, 1, 1, l).is_some(),
        |c: &Arc<Cube>, l: i64| {
            tests.set(tests.get() + 1);
            ray_box(&c.world_bounds(), 0, 1, 1, l).map(|t| (c.id, t))
        },
    );
    assert_eq!(got, (Some(0), 0));
    assert!(tests.get() < 16);
}

#[test]
fn root_box_is_the_union_of_the_primitive_boxes() {
    let prims = scene();
    for method in [SplitMethod::Sah, SplitMethod::Middle] {
        let bvh = Bvh::new(2, &prims, method);
        let mut union = Bounds3::<i32>::new();
        for p in &prims {
            union = Bounds3::<i32>::union(&union, &p.world_bounds());
        }
        assert_eq!(bvh.world_bounds(), union);
        assert_eq!(bvh.get_nodes()[0].bounds, union);
    }
}

#[test]
fn middle_split_gives_the_first_child_the_centres_below_the_middle() {
    let prims = vec![cube(0, 30, 0, 0, 2), cube(1, 0, 0, 0, 2), cube(2, 20, 0, 0, 2), cube(3, 10, 0, 0, 2)];
    let bvh = Bvh::new(1, &prims, SplitMethod::Middle);
    check_bvh(&bvh, &prims);
    let nodes = bvh.get_nodes();
    // Two centres lie below the middle of the x extent: the first child holds
    // them in three nodes, the second the other two.
    assert_eq!(nodes.len(), 7);
    match nodes[0].data {
        LNodeData::Interior { axis, second_child_offset } => {
            assert_eq!(axis, Axis::X);
            assert_eq!(second_child_offset, 4);
        }
        _ => panic!("expected an interior node"),
    }
    assert_eq!(nodes[1].bounds, bounds((0, 0, 0), (12, 2, 2)));
    assert_eq!(nodes[4].bounds, bounds((20, 0, 0), (32, 2, 2)));
}
