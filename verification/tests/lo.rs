use kerf::ir::lo::{Layer, Program, SegmentKind, Toolpath};
use kerf::{Point, Polyline, RegionKind};

#[test]
fn counts_only_extruding_moves() {
    let p = Polyline::new(vec![Point::new(0, 0), Point::new(1000, 0)]);
    let prog = Program {
        layers: vec![Layer {
            z_um: 200,
            toolpaths: vec![
                Toolpath { kind: SegmentKind::Travel, path: p.clone(), width_um: 0, flow_e: None },
                Toolpath { kind: SegmentKind::Extrude(RegionKind::Perimeter), path: p, width_um: 400, flow_e: None },
            ],
        }],
    };
    assert_eq!(prog.extrusion_move_count(), 1);
}
