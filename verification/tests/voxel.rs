use std::collections::BTreeSet;

use kerf::ir::lo::{self, Layer, SegmentKind, Toolpath};
use kerf::voxel::{rot_x90, rot_y90, rot_z90, rotation_verdict, voxelize, RotationVerdict, Voxels};
use kerf::{Point, Polyline, RegionKind};

fn square() -> lo::Program {
    lo::Program {
        layers: vec![Layer {
            z_um: 200,
            toolpaths: vec![Toolpath {
                kind: SegmentKind::Extrude(RegionKind::Perimeter),
                path: Polyline::new(vec![
                    Point::new(0, 0),
                    Point::new(20_000, 0),
                    Point::new(20_000, 20_000),
                    Point::new(0, 20_000),
                    Point::new(0, 0),
                ]),
                width_um: 400,
                flow_e: None,
            }],
        }],
    }
}

#[test]
fn voxelize_is_nonempty_and_single_k_for_one_thin_layer() {
    let v = voxelize(&square(), 200, None);
    assert!(!v.is_empty());
    let ks: BTreeSet<i64> = v.iter().map(|&(_, _, k)| k).collect();
    assert_eq!(ks.len(), 1, "a 0.2mm layer at 0.2mm res is one voxel thick");
}

#[test]
fn ninety_degree_rotations_are_bijections_and_order_four() {
    let v = voxelize(&square(), 200, None);
    for rot in [rot_x90, rot_y90, rot_z90] {
        let r4 = rot(&rot(&rot(&rot(&v))));
        assert_eq!(r4, v, "four 90-degree turns must be the identity");
        assert_eq!(rot(&v).len(), v.len(), "rotation preserves voxel count");
    }
}

#[test]
fn denote_is_exactly_equivariant_under_90_degree_z_rotation() {
    // Rotating the program 90° about Z by the exact integer map (x,y) -> (-y,x), then voxelizing,
    // equals rot_z90 of the original voxels.
    let p = square();
    let mut rotated_prog = p.clone();
    for layer in &mut rotated_prog.layers {
        for tp in &mut layer.toolpaths {
            for pt in &mut tp.path.points {
                *pt = Point::new(-pt.y, pt.x);
            }
        }
    }
    assert_eq!(voxelize(&rotated_prog, 200, None), rot_z90(&voxelize(&p, 200, None)));
}

#[test]
fn a_thicker_layer_spans_more_voxels() {
    let v = voxelize(&square(), 200, Some(600));
    let ks: BTreeSet<i64> = v.iter().map(|&(_, _, k)| k).collect();
    assert_eq!(ks.len(), 3);
}

#[test]
fn rotation_verdict_brackets_by_inner_and_outer() {
    let a: Voxels = [(0, 0, 0), (1, 0, 0)].into_iter().collect();
    let outer: Voxels = [(0, 0, 0), (1, 0, 0), (2, 0, 0)].into_iter().collect();
    let inner: Voxels = [(0, 0, 0)].into_iter().collect();
    assert_eq!(rotation_verdict(&inner, &outer, &a), RotationVerdict::SameWithinGrid);
    let far: Voxels = [(0, 0, 0), (9, 9, 9)].into_iter().collect();
    assert_eq!(rotation_verdict(&inner, &outer, &far), RotationVerdict::DefinitelyDiffer);
    let missing: Voxels = [(1, 0, 0)].into_iter().collect();
    assert_eq!(rotation_verdict(&inner, &outer, &missing), RotationVerdict::DefinitelyDiffer);
}

#[test]
fn z_rotation_maps_a_voxel_exactly() {
    let v: Voxels = [(2, 5, 1)].into_iter().collect();
    let r: Voxels = [(-6, 2, 1)].into_iter().collect();
    assert_eq!(rot_z90(&v), r);
}
