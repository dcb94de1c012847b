use vel0city::bsp::plane::{classify_sweep, test_ray, PlaneSide, SegmentFacts, SweepFacts, SweepKind};
use vel0city::bsp::{is_acyclic, InnerNode, Leaf, NodeIndex, Tree, TreeError};
use vel0city::map::WorldMap;

struct Plane {
    norm: [f32; 3],
    dist: f32,
}

fn dot(a: [f32; 3], b: [f32; 3]) -> f32 {
    a[0] * b[0] + a[1] * b[1] + a[2] * b[2]
}

fn dist_to_point(plane: &Plane, p: [f32; 3]) -> f32 {
    dot(plane.norm, p) - plane.dist
}

fn sides(planes: &[Plane], p: [f32; 3]) -> Vec<bool> {
    planes.iter().map(|pl| dist_to_point(pl, p) > 0.0).collect()
}

fn node(pos: NodeIndex, neg: NodeIndex) -> InnerNode {
    InnerNode { pos, neg }
}

fn leaves(solid: &[bool]) -> Vec<Leaf> {
    solid.iter().map(|&s| Leaf { solid: s }).collect()
}

fn err_of(inodes: Vec<InnerNode>, lv: Vec<Leaf>, root: NodeIndex) -> TreeError {
    match Tree::new(inodes, lv, root) {
        Ok(t) => panic!("accepted: {:?}", t),
        Err(e) => e,
    }
}

/// Solid where `0 <= x < 1` and `y < 1`.
fn slab() -> (Tree, Vec<Plane>) {
    let planes = vec![
        Plane { norm: [1.0, 0.0, 0.0], dist: 0.0 },
        Plane { norm: [1.0, 0.0, 0.0], dist: 1.0 },
        Plane { norm: [0.0, 1.0, 0.0], dist: 1.0 },
    ];
    let tree = Tree::new(
        vec![node(1, -1), node(-1, 2), node(-1, -2)],
        leaves(&[false, true]),
        0,
    )
    .unwrap();
    (tree, planes)
}

fn single_plane_map() -> WorldMap {
    WorldMap {
        bsp: Tree { inodes: vec![node(-1, -2)], leaves: leaves(&[false, true]), root: 0 },
    }
}

#[test]
fn leaf_reports_solidity() {
    assert!(Leaf { solid: true }.is_solid());
    assert!(!Leaf { solid: false }.is_solid());
}

#[test]
fn point_containment() {
    let (tree, planes) = slab();
    assert!(tree.contains_point(&sides(&planes, [0.5, 0.0, 0.0])));
    assert!(!tree.contains_point(&sides(&planes, [1.5, 0.0, 0.0])));
    assert!(!tree.contains_point(&sides(&planes, [0.5, 1.5, 0.0])));
    assert!(!tree.contains_point(&sides(&planes, [-0.5, 0.0, 0.0])));
}

#[test]
fn point_containment_asks_only_on_the_way() {
    let (tree, planes) = slab();
    let asked = std::cell::RefCell::new(Vec::new());
    let p = [0.5, 1.5, 0.0];
    let solid = tree.contains_point_with(|node| {
        asked.borrow_mut().push(node);
        dist_to_point(&planes[node], p) > 0.0
    });
    assert!(!solid);
    assert_eq!(*asked.borrow(), vec![0, 1, 2]);
    asked.borrow_mut().clear();
    assert!(!tree.contains_point_with(|node| {
        asked.borrow_mut().push(node);
        dist_to_point(&planes[node], [-3.0, 0.0, 0.0]) > 0.0
    }));
    assert_eq!(*asked.borrow(), vec![0]);
    assert!(tree.contains_point_with(|node| dist_to_point(&planes[node], [0.5, 0.0, 0.0]) > 0.0));
}

#[test]
fn point_on_a_plane_counts_as_behind_it() {
    let (tree, planes) = slab();
    // x = 0 lies on the first plane: behind it, so outside the slab.
    assert!(!tree.contains_point(&sides(&planes, [0.0, 0.0, 0.0])));
    // x = 1 lies on the second plane: behind it, so still inside.
    assert!(tree.contains_point(&sides(&planes, [1.0, 0.0, 0.0])));
    // y = 1 lies on the third plane: behind it, so still inside.
    assert!(tree.contains_point(&sides(&planes, [0.5, 1.0, 0.0])));
}

#[test]
fn containment_is_repeatable() {
    let (tree, planes) = slab();
    let s = sides(&planes, [0.5, 0.5, 3.0]);
    let first = tree.contains_point(&s);
    for _ in 0..10 {
        assert_eq!(tree.contains_point(&s), first);
    }
    assert!(first);
}

#[test]
fn descent_from_an_inner_node() {
    let (tree, _) = slab();
    assert!(tree.contains_point_recursive(&vec![false, false, false], 2));
    assert!(!tree.contains_point_recursive(&vec![false, false, true], 2));
    assert!(tree.contains_point_recursive(&vec![false, false, false], 1));
    assert!(!tree.contains_point_recursive(&vec![false, true, false], 1));
}

#[test]
fn single_plane_map_has_solid_floor() {
    let map = single_plane_map();
    assert!(map.bsp.is_well_formed());
    assert!(map.bsp.contains_point(&vec![false]));
    assert!(!map.bsp.contains_point(&vec![true]));
}

#[test]
fn child_and_leaf_lookup() {
    let (tree, _) = slab();
    assert_eq!(tree.child(0, true), 1);
    assert_eq!(tree.child(0, false), -1);
    assert_eq!(tree.child(2, false), -2);
    assert!(!tree.get_leaf(-1).solid);
    assert!(tree.get_leaf(-2).solid);
}

#[test]
fn construction_keeps_the_parts() {
    let t = Tree::new(vec![node(-1, -2)], leaves(&[false, true]), 0).unwrap();
    assert_eq!(t.inodes.len(), 1);
    assert_eq!(t.inodes[0].pos, -1);
    assert_eq!(t.inodes[0].neg, -2);
    assert_eq!(t.leaves.len(), 2);
    assert!(t.leaves[1].solid);
    assert_eq!(t.root, 0);
    assert!(t.is_well_formed());
}

#[test]
fn single_leaf_world_is_accepted() {
    let t = Tree::new(vec![node(-1, -1)], leaves(&[true]), 0).unwrap();
    assert!(t.contains_point(&vec![true]));
    assert!(t.contains_point(&vec![false]));
}

#[test]
fn construction_rejects_no_nodes() {
    assert_eq!(err_of(vec![], leaves(&[true]), 0), TreeError::NoNodes);
    assert_eq!(err_of(vec![], vec![], 0), TreeError::NoNodes);
}

#[test]
fn construction_rejects_no_leaves() {
    assert_eq!(err_of(vec![node(0, 0)], vec![], 0), TreeError::NoLeaves);
}

#[test]
fn construction_rejects_bad_root() {
    assert_eq!(err_of(vec![node(-1, -1)], leaves(&[true]), 1), TreeError::RootOutOfRange);
    assert_eq!(err_of(vec![node(-1, -1)], leaves(&[true]), -1), TreeError::RootOutOfRange);
    assert_eq!(err_of(vec![node(-1, -1)], leaves(&[true]), i32::MAX), TreeError::RootOutOfRange);
}

#[test]
fn construction_rejects_dangling_children() {
    assert_eq!(
        err_of(vec![node(-1, -1), node(2, -1)], leaves(&[true]), 0),
        TreeError::ChildOutOfRange { node: 1 }
    );
    assert_eq!(
        err_of(vec![node(-1, -2)], leaves(&[true]), 0),
        TreeError::ChildOutOfRange { node: 0 }
    );
    assert_eq!(
        err_of(vec![node(-1, i32::MIN)], leaves(&[true]), 0),
        TreeError::ChildOutOfRange { node: 0 }
    );
    // The first offender is named, and dangling children come before cycles.
    assert_eq!(
        err_of(vec![node(0, -1), node(-1, 7), node(9, -1)], leaves(&[true]), 0),
        TreeError::ChildOutOfRange { node: 1 }
    );
}

#[test]
fn construction_rejects_cycles() {
    assert_eq!(err_of(vec![node(0, -1)], leaves(&[true]), 0), TreeError::Cycle);
    assert_eq!(err_of(vec![node(1, -1), node(-1, 0)], leaves(&[true]), 0), TreeError::Cycle);
    // A cycle that the root does not reach is a cycle all the same.
    assert_eq!(
        err_of(vec![node(-1, -1), node(2, -1), node(1, -1)], leaves(&[true]), 0),
        TreeError::Cycle
    );
}

#[test]
fn node_order_does_not_matter() {
    // Children before parents, parents before children, and mixed.
    assert!(is_acyclic(&vec![node(-1, -1), node(0, -1), node(1, 0)]));
    assert!(is_acyclic(&vec![node(1, 2), node(2, -1), node(-1, -1)]));
    assert!(is_acyclic(&vec![node(-1, 2), node(0, 3), node(-1, -1), node(2, 0)]));
    assert!(!is_acyclic(&vec![node(-1, 2), node(0, 3), node(1, -1), node(2, 0)]));
    let t = Tree::new(
        vec![node(-1, -2), node(0, 2), node(-1, 0)],
        leaves(&[false, true]),
        1,
    )
    .unwrap();
    assert!(t.contains_point(&vec![false, true, false]));
    assert!(!t.contains_point(&vec![true, false, true]));
}

#[test]
fn shared_subtrees_are_accepted() {
    let t = Tree::new(vec![node(1, 1), node(-1, -2)], leaves(&[false, true]), 0).unwrap();
    assert!(t.contains_point(&vec![true, false]));
    assert!(!t.contains_point(&vec![false, true]));
}

#[test]
fn ill_formed_trees_are_recognised() {
    let t = Tree { inodes: vec![node(0, -1)], leaves: leaves(&[true]), root: 0 };
    assert!(!t.is_well_formed());
    let t = Tree { inodes: vec![node(-1, -3)], leaves: leaves(&[true, false]), root: 0 };
    assert!(!t.is_well_formed());
    let t = Tree { inodes: vec![], leaves: leaves(&[true]), root: 0 };
    assert!(!t.is_well_formed());
    let t = Tree { inodes: vec![node(-1, -1)], leaves: vec![], root: 0 };
    assert!(!t.is_well_formed());
    let t = Tree { inodes: vec![node(-1, -1)], leaves: leaves(&[true]), root: 3 };
    assert!(!t.is_well_formed());
}

fn segment_facts(plane: &Plane, orig: [f32; 3], dir: [f32; 3], half: [f32; 3]) -> (SegmentFacts, f32, f32, f32) {
    let pad = (half[0] * plane.norm[0]).abs()
        + (half[1] * plane.norm[1]).abs()
        + (half[2] * plane.norm[2]).abs();
    let end = [orig[0] + dir[0], orig[1] + dir[1], orig[2] + dir[2]];
    let ds = dist_to_point(plane, orig);
    let de = dist_to_point(plane, end);
    (
        SegmentFacts {
            start_front: ds >= pad,
            end_front: de >= pad,
            start_back: ds <= -pad,
            end_back: de <= -pad,
            level: (ds - de).abs() == 0.0,
            start_nonneg: ds >= 0.0,
        },
        ds,
        de,
        pad,
    )
}

#[test]
fn plane_raytest() {
    let plane = Plane { norm: [1.0, 0.0, 0.0], dist: 0.0 };
    let (facts, ds, de, pad) =
        segment_facts(&plane, [-0.5, 0.0, 0.0], [1.0, 0.0, 0.0], [0.0, 0.0, 0.0]);
    match test_ray(facts) {
        PlaneSide::Span => {
            let toi = ((ds.abs() - pad - 0.0) / (ds - de).abs()).clamp(0.0, 1.0);
            assert!((toi - 0.5).abs() < 1e-6);
        }
        x => panic!("{:?}", x),
    }
}

#[test]
fn plane_cubetest() {
    let plane = Plane { norm: [1.0, 0.0, 0.0], dist: 16.0 };

    // A cube that slides along the plane a little in front of it.
    let (facts, ds, de, _) =
        segment_facts(&plane, [16.1, 0.0, 0.0], [0.0, 0.0, 1.0], [1.0, 1.0, 1.0]);
    assert!((ds - 0.1).abs() < 1e-4 && ds == de);
    assert_eq!(test_ray(facts), PlaneSide::Front);

    // A box that stays far behind the plane.
    let (facts, ds, de, pad) =
        segment_facts(&plane, [0.1, 0.0, 0.0], [1.0, 0.0, 0.0], [0.5, 0.0, 0.0]);
    assert!(ds <= -pad && de <= -pad);
    assert_eq!(test_ray(facts), PlaneSide::Back);
}

#[test]
fn motion_clear_of_a_plane_lies_on_one_side() {
    let plane = Plane { norm: [1.0, 0.0, 0.0], dist: 16.0 };
    let (facts, _, _, _) = segment_facts(&plane, [20.0, 0.0, 0.0], [1.0, 5.0, 0.0], [1.0, 1.0, 1.0]);
    assert_eq!(test_ray(facts), PlaneSide::Front);
    let (facts, _, _, _) = segment_facts(&plane, [0.1, 0.0, 0.0], [1.0, 0.0, 0.0], [0.5, 0.0, 0.0]);
    assert_eq!(test_ray(facts), PlaneSide::Back);
}

#[test]
fn motion_along_a_plane_lies_where_it_starts() {
    let plane = Plane { norm: [1.0, 0.0, 0.0], dist: 16.0 };
    let (facts, _, _, _) = segment_facts(&plane, [16.1, 0.0, 0.0], [0.0, 0.0, 1.0], [1.0, 1.0, 1.0]);
    assert_eq!(test_ray(facts), PlaneSide::Front);
    let (facts, _, _, _) = segment_facts(&plane, [15.9, 0.0, 0.0], [0.0, 0.0, 1.0], [1.0, 1.0, 1.0]);
    assert_eq!(test_ray(facts), PlaneSide::Back);
}

#[test]
fn front_is_tried_before_back() {
    let both = SegmentFacts {
        start_front: true,
        end_front: true,
        start_back: true,
        end_back: true,
        level: true,
        start_nonneg: false,
    };
    assert_eq!(test_ray(both), PlaneSide::Front);
    let sweep = SweepFacts {
        reversed: false,
        start_front: true,
        end_front: true,
        start_back: true,
        end_back: true,
        level: true,
        rising: true,
    };
    assert_eq!(classify_sweep(sweep), SweepKind::Front);
}

#[test]
fn sweep_kinds_in_order() {
    let base = SweepFacts {
        reversed: false,
        start_front: false,
        end_front: false,
        start_back: false,
        end_back: false,
        level: false,
        rising: false,
    };
    assert_eq!(classify_sweep(base), SweepKind::Falling);
    assert_eq!(classify_sweep(SweepFacts { rising: true, ..base }), SweepKind::Rising);
    assert_eq!(classify_sweep(SweepFacts { level: true, rising: true, ..base }), SweepKind::Parallel);
    assert_eq!(
        classify_sweep(SweepFacts { start_back: true, end_back: true, level: true, ..base }),
        SweepKind::Back
    );
    assert_eq!(
        classify_sweep(SweepFacts { start_back: true, level: true, ..base }),
        SweepKind::Parallel
    );
    assert_eq!(
        classify_sweep(SweepFacts { start_front: true, end_front: true, ..base }),
        SweepKind::Front
    );
    assert_eq!(classify_sweep(SweepFacts { start_front: true, ..base }), SweepKind::Falling);
    assert_eq!(
        classify_sweep(SweepFacts { reversed: true, start_front: true, end_front: true, ..base }),
        SweepKind::Empty
    );
}
