use kerf::analyze::{deposit_stats, travel_collisions};
use kerf::denote::denote_lo;
use kerf::feature::occupancy_grid;
use kerf::ir::lo::{self, Layer, SegmentKind, Toolpath};
use kerf::{Point, Polyline, RegionKind};

fn extrude(pts: Vec<Point>) -> Toolpath {
    Toolpath { kind: SegmentKind::Extrude(RegionKind::Perimeter), path: Polyline::new(pts), width_um: 400, flow_e: None }
}

fn travel(pts: Vec<Point>) -> Toolpath {
    Toolpath { kind: SegmentKind::Travel, path: Polyline::new(pts), width_um: 0, flow_e: None }
}

#[test]
fn deposit_stats_flags_over_deposition() {
    let seg = || extrude(vec![Point::new(0, 0), Point::new(10_000, 0)]);
    let once = lo::Program { layers: vec![Layer { z_um: 200, toolpaths: vec![seg()] }] };
    let s1 = deposit_stats(&once, 200);
    assert_eq!(s1.over_deposited_cells, 0);
    assert_eq!(s1.max_multiplicity, 1);
    let twice = lo::Program { layers: vec![Layer { z_um: 200, toolpaths: vec![seg(), seg()] }] };
    let s2 = deposit_stats(&twice, 200);
    assert_eq!(s2.total_cells, s1.total_cells);
    assert_eq!(s2.over_deposited_cells, s1.total_cells);
    assert_eq!(s2.redeposited_cells, s1.total_cells);
    assert_eq!(s2.max_multiplicity, 2);
}

#[test]
fn travel_across_deposited_material_is_flagged_but_a_clear_travel_is_not() {
    let wall = extrude(vec![Point::new(0, 5000), Point::new(40_000, 5000)]);
    let crossing = travel(vec![Point::new(20_000, 0), Point::new(20_000, 10_000)]);
    let dragging = lo::Program { layers: vec![Layer { z_um: 200, toolpaths: vec![wall.clone(), crossing] }] };
    assert!(travel_collisions(&dragging, 200).total > 0);
    let around = travel(vec![Point::new(45_000, 0), Point::new(45_000, 10_000)]);
    let clean = lo::Program { layers: vec![Layer { z_um: 200, toolpaths: vec![wall, around] }] };
    assert_eq!(travel_collisions(&clean, 200).total, 0);
}

#[test]
fn deposit_stats_of_an_empty_program_are_zero() {
    let s = deposit_stats(&lo::Program { layers: vec![] }, 200);
    assert_eq!((s.total_cells, s.over_deposited_cells, s.redeposited_cells, s.max_multiplicity), (0, 0, 0, 0));
    assert_eq!(s.resolution_um, 200);
}

#[test]
fn collisions_are_reported_per_layer() {
    let wall = extrude(vec![Point::new(0, 5000), Point::new(40_000, 5000)]);
    let crossing = travel(vec![Point::new(20_000, 0), Point::new(20_000, 10_000)]);
    let prog = lo::Program {
        layers: vec![
            Layer { z_um: 200, toolpaths: vec![wall.clone(), crossing] },
            Layer { z_um: 400, toolpaths: vec![wall] },
        ],
    };
    let c = travel_collisions(&prog, 200);
    assert_eq!(c.per_layer.len(), 2);
    assert_eq!(c.per_layer[1].crossed_cells, 0);
    assert_eq!(c.total, c.per_layer[0].crossed_cells);
}

fn feature_prog() -> lo::Program {
    lo::Program {
        layers: vec![Layer {
            z_um: 200,
            toolpaths: vec![
                Toolpath::extrude(
                    SegmentKind::Extrude(RegionKind::Perimeter),
                    Polyline::new(vec![Point::new(0, 0), Point::new(10_000, 0)]),
                    400,
                ),
                Toolpath::extrude(
                    SegmentKind::Extrude(RegionKind::Infill),
                    Polyline::new(vec![Point::new(0, 4_000), Point::new(10_000, 4_000)]),
                    400,
                ),
            ],
        }],
    }
}

#[test]
fn dense_grid_marks_exactly_the_occupied_cells() {
    let g = &occupancy_grid(&feature_prog(), 200)[0];
    assert!(g.rows > 0 && g.cols > 0);
    let ones: usize = g.data.iter().map(|&b| b as usize).sum();
    assert_eq!(ones, denote_lo(&feature_prog(), 200).layers[0].cells.len());
    assert_eq!(g.data.len(), g.rows * g.cols);
}

#[test]
fn an_empty_layer_is_a_zero_by_zero_grid() {
    let p = lo::Program { layers: vec![Layer { z_um: 200, toolpaths: vec![] }] };
    let g = &occupancy_grid(&p, 200)[0];
    assert_eq!((g.rows, g.cols, g.data.len()), (0, 0, 0));
}
