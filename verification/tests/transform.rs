use kerf::ir::lo::{self, Layer, SegmentKind, Toolpath};
use kerf::transform::{legal_actions, preserves_deposit, preserves_occupancy, Action, Preservation, TransformError};
use kerf::{Point, Polyline, RegionKind};

fn ext(pts: Vec<Point>) -> Toolpath {
    Toolpath::extrude(SegmentKind::Extrude(RegionKind::Perimeter), Polyline::new(pts), 400)
}

fn two_path_layer() -> lo::Program {
    lo::Program {
        layers: vec![Layer {
            z_um: 200,
            toolpaths: vec![
                ext(vec![Point::new(0, 0), Point::new(10_000, 0)]),
                ext(vec![Point::new(0, 5_000), Point::new(10_000, 5_000)]),
            ],
        }],
    }
}

fn closed_square() -> lo::Program {
    lo::Program {
        layers: vec![Layer {
            z_um: 200,
            toolpaths: vec![ext(vec![
                Point::new(0, 0),
                Point::new(10_000, 0),
                Point::new(10_000, 10_000),
                Point::new(0, 10_000),
                Point::new(0, 0),
            ])],
        }],
    }
}

#[test]
fn preserving_actions_never_change_denotation() {
    let base = two_path_layer();
    for act in [
        Action::ReversePath { layer: 0, toolpath: 0 },
        Action::SwapToolpaths { layer: 0, a: 0, b: 1 },
        Action::PermuteToolpaths { layer: 0, perm: vec![1, 0] },
    ] {
        assert_eq!(act.preservation(), Preservation::PreservingByConstruction);
        let mut p = base.clone();
        let touched = act.apply(&mut p).unwrap();
        assert_eq!(touched, vec![0]);
        assert!(preserves_occupancy(&base, &p, 200));
        assert!(preserves_deposit(&base, &p, 200));
    }
}

#[test]
fn split_at_midpoint_preserves_occupancy() {
    let base = two_path_layer();
    let act = Action::SplitSegment { layer: 0, toolpath: 0, segment: 0, t_permille: 500 };
    assert_eq!(act.preservation(), Preservation::NeedsVerification);
    let mut p = base.clone();
    act.apply(&mut p).unwrap();
    assert_eq!(p.layers[0].toolpaths[0].path.points.len(), 3, "a vertex was inserted");
    assert!(preserves_occupancy(&base, &p, 200));
}

#[test]
fn merge_collinear_undoes_a_split() {
    let base = two_path_layer();
    let mut p = base.clone();
    Action::SplitSegment { layer: 0, toolpath: 0, segment: 0, t_permille: 300 }.apply(&mut p).unwrap();
    Action::MergeCollinear { layer: 0, toolpath: 0 }.apply(&mut p).unwrap();
    assert_eq!(p.layers[0].toolpaths[0].path.points, base.layers[0].toolpaths[0].path.points);
}

#[test]
fn relocate_seam_preserves_a_loop() {
    let base = closed_square();
    let act = Action::RelocateSeam { layer: 0, toolpath: 0, vertex: 2 };
    let mut p = base.clone();
    act.apply(&mut p).unwrap();
    let pts = &p.layers[0].toolpaths[0].path.points;
    assert_eq!(pts.first(), pts.last(), "still a closed loop");
    assert!(preserves_occupancy(&base, &p, 100));
    assert!(preserves_deposit(&base, &p, 100));
}

#[test]
fn invalid_actions_error_without_mutating() {
    let base = two_path_layer();
    let mut p = base.clone();
    assert_eq!(Action::ReversePath { layer: 9, toolpath: 0 }.apply(&mut p), Err(TransformError::InvalidLayer));
    assert_eq!(
        Action::RelocateSeam { layer: 0, toolpath: 0, vertex: 0 }.apply(&mut p),
        Err(TransformError::NotApplicable)
    );
    assert_eq!(p, base, "a failed action must not mutate the program");
}

#[test]
fn legal_actions_all_apply_without_panic_and_stay_valid() {
    let prog = closed_square();
    let acts = legal_actions(&prog);
    assert!(!acts.is_empty());
    for act in acts {
        let mut p = prog.clone();
        if let Ok(touched) = act.apply(&mut p) {
            assert!(touched.iter().all(|&l| l < p.layers.len()));
            if act.preservation() == Preservation::PreservingByConstruction {
                assert!(preserves_occupancy(&prog, &p, 200));
            }
        }
    }
}

#[test]
fn each_error_variant_has_an_input() {
    let base = two_path_layer();
    let mut p = base.clone();
    assert_eq!(Action::ReversePath { layer: 0, toolpath: 7 }.apply(&mut p), Err(TransformError::InvalidToolpath));
    assert_eq!(
        Action::SplitSegment { layer: 0, toolpath: 0, segment: 5, t_permille: 500 }.apply(&mut p),
        Err(TransformError::InvalidSegment)
    );
    let mut q = closed_square();
    assert_eq!(
        Action::RelocateSeam { layer: 0, toolpath: 0, vertex: 99 }.apply(&mut q),
        Err(TransformError::InvalidVertex)
    );
    assert_eq!(
        Action::PermuteToolpaths { layer: 0, perm: vec![0, 0] }.apply(&mut p),
        Err(TransformError::NotApplicable)
    );
    assert_eq!(p, base);
}

#[test]
fn the_action_names_its_layer() {
    assert_eq!(Action::MergeCollinear { layer: 3, toolpath: 1 }.layer(), 3);
}

#[test]
fn seam_relocation_is_offered_for_every_vertex_of_a_closed_loop() {
    let acts = legal_actions(&closed_square());
    for v in 0..4 {
        assert!(acts.contains(&Action::RelocateSeam { layer: 0, toolpath: 0, vertex: v }), "vertex {v}");
    }
    assert!(!acts.contains(&Action::RelocateSeam { layer: 0, toolpath: 0, vertex: 4 }));
}

#[test]
fn legal_actions_fail_only_on_degenerate_splits() {
    // Consecutive points one micron apart: the midpoint rounds onto an end.
    let prog = lo::Program {
        layers: vec![Layer { z_um: 200, toolpaths: vec![ext(vec![Point::new(0, 0), Point::new(1, 0), Point::new(1, 5000)])] }],
    };
    for act in legal_actions(&prog) {
        let mut q = prog.clone();
        match act.apply(&mut q) {
            Ok(touched) => assert!(touched.iter().all(|&l| l < q.layers.len())),
            Err(e) => {
                assert_eq!(e, TransformError::NotApplicable);
                assert!(matches!(act, Action::SplitSegment { .. }));
            },
        }
    }
}

#[test]
fn equal_deposit_means_equal_occupancy() {
    let base = two_path_layer();
    let mut p = base.clone();
    Action::SwapToolpaths { layer: 0, a: 0, b: 1 }.apply(&mut p).unwrap();
    assert!(preserves_deposit(&base, &p, 100));
    assert!(preserves_occupancy(&base, &p, 100));
}
