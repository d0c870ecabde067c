use kerf::ir::hi;
use kerf::ir::lo::{self, Layer, SegmentKind, Toolpath};
use kerf::lower::lower;
use kerf::metamorphic::{translate, translation_invariant};
use kerf::pass::{preserves_denotation, preserves_deposit, Identity, Pass, TravelOrder};
use kerf::transform::{preserves_deposit as transform_preserves_deposit, preserves_occupancy};
use kerf::{Area, ExtrudePath, Point, Polyline, RegionKind};

fn one_segment_program() -> lo::Program {
    lo::Program {
        layers: vec![Layer {
            z_um: 200,
            toolpaths: vec![Toolpath {
                kind: SegmentKind::Extrude(RegionKind::Perimeter),
                path: Polyline::new(vec![Point::new(0, 0), Point::new(5000, 0)]),
                width_um: 400,
                flow_e: None,
            }],
        }],
    }
}

fn travel_distance_um(p: &lo::Program) -> f64 {
    p.layers
        .iter()
        .flat_map(|l| &l.toolpaths)
        .filter(|t| t.kind == SegmentKind::Travel)
        .map(|t| {
            t.path
                .points
                .windows(2)
                .map(|w| (((w[1].x - w[0].x) as f64).powi(2) + ((w[1].y - w[0].y) as f64).powi(2)).sqrt())
                .sum::<f64>()
        })
        .sum()
}

#[test]
fn identity_preserves_denotation() {
    assert!(preserves_denotation(&Identity, &one_segment_program(), 200));
}

/// A broken pass that drops the first extruding move; the oracle MUST reject its output.
fn drop_first_extrude(mut program: lo::Program) -> lo::Program {
    for layer in &mut program.layers {
        if let Some(pos) = layer.toolpaths.iter().position(|t| t.kind.extrudes()) {
            layer.toolpaths.remove(pos);
        }
    }
    program
}

#[test]
fn oracle_catches_a_pass_that_drops_material() {
    let prog = lo::Program {
        layers: vec![Layer {
            z_um: 200,
            toolpaths: vec![
                Toolpath {
                    kind: SegmentKind::Extrude(RegionKind::Infill),
                    path: Polyline::new(vec![Point::new(0, 0), Point::new(1000, 0)]),
                    width_um: 400,
                    flow_e: None,
                },
                Toolpath {
                    kind: SegmentKind::Extrude(RegionKind::Infill),
                    path: Polyline::new(vec![Point::new(9000, 9000), Point::new(10_000, 9000)]),
                    width_um: 400,
                    flow_e: None,
                },
            ],
        }],
    };
    let after = drop_first_extrude(prog.clone());
    assert!(!preserves_occupancy(&prog, &after, 200));
    assert!(preserves_denotation(&Identity, &prog, 200));
}

/// A pass that lays the first extruding move down a second time: the classic over-extrusion bug.
fn duplicate_first_extrude(mut program: lo::Program) -> lo::Program {
    for layer in &mut program.layers {
        if let Some(pos) = layer.toolpaths.iter().position(|t| t.kind.extrudes()) {
            let dup = layer.toolpaths[pos].clone();
            layer.toolpaths.insert(pos + 1, dup);
        }
    }
    program
}

#[test]
fn deposit_oracle_catches_double_deposition_the_set_oracle_misses() {
    let prog = one_segment_program();
    let after = duplicate_first_extrude(prog.clone());
    // The set-based oracle is fooled: unioning a duplicate path changes no occupied cell.
    assert!(preserves_occupancy(&prog, &after, 200));
    // The deposit oracle is not.
    assert!(!transform_preserves_deposit(&prog, &after, 200));
    assert!(preserves_deposit(&Identity, &prog, 200));
}

/// Three short horizontal segments deliberately listed in a travel-wasting order.
fn scattered_hi() -> hi::Program {
    let seg = |x: i64| Polyline::new(vec![Point::new(x, 0), Point::new(x + 100, 0)]);
    hi::Program {
        layers: vec![hi::Layer {
            z_um: 200,
            regions: vec![hi::Region {
                kind: RegionKind::Infill,
                boundary: Area::default(),
                fills: vec![
                    ExtrudePath { path: seg(0), width_um: 400 },
                    ExtrudePath { path: seg(5000), width_um: 400 },
                    ExtrudePath { path: seg(2500), width_um: 400 },
                ],
            }],
        }],
    }
}

#[test]
fn reduces_travel_and_preserves_denotation() {
    let lowered = lower(&scattered_hi());
    let before = travel_distance_um(&lowered);
    let optimized = TravelOrder::default().run(lowered.clone());
    let after = travel_distance_um(&optimized);
    assert!(after < before, "expected travel to shrink: {after} !< {before}");
    assert_eq!(lowered.extrusion_move_count(), optimized.extrusion_move_count());
    assert!(preserves_denotation(&TravelOrder::default(), &lowered, 200));
}

fn square_region() -> hi::Region {
    let outer = Polyline::new(vec![
        Point::new(0, 0),
        Point::new(20_000, 0),
        Point::new(20_000, 20_000),
        Point::new(0, 20_000),
        Point::new(0, 0),
    ]);
    hi::Region {
        kind: RegionKind::Perimeter,
        boundary: Area { outer: outer.clone(), holes: vec![] },
        fills: vec![ExtrudePath { path: outer, width_um: 400 }],
    }
}

#[test]
fn lowers_a_single_region_to_one_extruding_move_no_travel() {
    let prog = hi::Program { layers: vec![hi::Layer { z_um: 200, regions: vec![square_region()] }] };
    let lowered = lower(&prog);
    assert_eq!(lowered.layers.len(), 1);
    assert_eq!(lowered.extrusion_move_count(), 1);
    assert!(lowered.layers[0].toolpaths.iter().all(|t| t.kind != SegmentKind::Travel));
}

#[test]
fn inserts_travel_between_disjoint_fills() {
    let a = Polyline::new(vec![Point::new(0, 0), Point::new(1000, 0)]);
    let b = Polyline::new(vec![Point::new(5000, 5000), Point::new(6000, 5000)]);
    let region = hi::Region {
        kind: RegionKind::Infill,
        boundary: Area::default(),
        fills: vec![ExtrudePath { path: a, width_um: 400 }, ExtrudePath { path: b, width_um: 400 }],
    };
    let prog = hi::Program { layers: vec![hi::Layer { z_um: 200, regions: vec![region] }] };
    let lowered = lower(&prog);
    let travels = lowered.layers[0].toolpaths.iter().filter(|t| t.kind == SegmentKind::Travel).count();
    assert_eq!(travels, 1);
    assert_eq!(lowered.extrusion_move_count(), 2);
}

fn square() -> lo::Program {
    lo::Program {
        layers: vec![Layer {
            z_um: 200,
            toolpaths: vec![Toolpath {
                kind: SegmentKind::Extrude(RegionKind::Perimeter),
                path: Polyline::new(vec![
                    Point::new(0, 0),
                    Point::new(20_000, 0),
                    Point::new(20_000, 20_000),
                    Point::new(0, 20_000),
                    Point::new(0, 0),
                ]),
                width_um: 400,
                flow_e: None,
            }],
        }],
    }
}

#[test]
fn square_is_translation_invariant() {
    assert!(translation_invariant(&square(), 2, 3, 200));
    assert!(translation_invariant(&square(), -5, 7, 300));
}

#[test]
fn translate_moves_every_point() {
    let t = translate(&square(), 100, -50);
    assert_eq!(t.layers[0].toolpaths[0].path.points[0], Point::new(100, -50));
    assert_eq!(t.layers[0].toolpaths[0].path.points[2], Point::new(20_100, 19_950));
}

#[test]
fn translate_saturates_at_the_coordinate_range() {
    let mut p = square();
    p.layers[0].toolpaths[0].path.points[0] = Point::new(i64::MAX - 10, 0);
    let t = translate(&p, 100, 0);
    assert_eq!(t.layers[0].toolpaths[0].path.points[0], Point::new(i64::MAX, 0));
}

fn generated_lo_programs(n: usize) -> Vec<lo::Program> {
    let mut st = 0xabcd_ef01u64;
    let mut rng = move |m: i64| {
        st = st.wrapping_mul(6364136223846793005).wrapping_add(1442695040888963407);
        ((st >> 33) as i64).rem_euclid(m)
    };
    let kinds = [RegionKind::Perimeter, RegionKind::Infill, RegionKind::Skin, RegionKind::Support];
    (0..n)
        .map(|_| lo::Program {
            layers: (0..1 + rng(2))
                .map(|_| Layer {
                    z_um: rng(2000),
                    toolpaths: (0..1 + rng(4))
                        .map(|_| Toolpath {
                            kind: SegmentKind::Extrude(kinds[rng(4) as usize]),
                            path: Polyline::new((0..1 + rng(3)).map(|_| Point::new(rng(2000), rng(2000))).collect()),
                            width_um: 100 + rng(300),
                            flow_e: None,
                        })
                        .collect(),
                })
                .collect(),
        })
        .collect()
}

#[test]
fn travel_order_preserves_denotation_and_deposit_over_generated_programs() {
    for prog in generated_lo_programs(48) {
        assert!(preserves_denotation(&TravelOrder::default(), &prog, 300));
        assert!(preserves_deposit(&TravelOrder::default(), &prog, 300));
    }
}

#[test]
fn any_generated_program_is_translation_invariant() {
    for (k, prog) in generated_lo_programs(32).into_iter().enumerate() {
        let cx = (k as i64 % 7) - 3;
        let cy = (k as i64 % 5) - 2;
        assert!(translation_invariant(&prog, cx, cy, 300));
    }
}

#[test]
fn reordering_reversing_and_new_travels_preserve_material() {
    let ext = |pts: Vec<Point>| Toolpath {
        kind: SegmentKind::Extrude(RegionKind::Infill),
        path: Polyline::new(pts),
        width_um: 350,
        flow_e: None,
    };
    let a = vec![Point::new(0, 0), Point::new(4000, 1000), Point::new(6000, 5000)];
    let b = vec![Point::new(9000, 9000), Point::new(1000, 8000)];
    let before = lo::Program {
        layers: vec![Layer {
            z_um: 300,
            toolpaths: vec![
                ext(a.clone()),
                Toolpath::travel(Polyline::new(vec![Point::new(6000, 5000), Point::new(9000, 9000)])),
                ext(b.clone()),
            ],
        }],
    };
    let mut a_rev = a.clone();
    a_rev.reverse();
    let after = lo::Program {
        layers: vec![Layer {
            z_um: 300,
            toolpaths: vec![
                ext(b),
                Toolpath::travel(Polyline::new(vec![Point::new(1000, 8000), Point::new(50_000, 0), Point::new(6000, 5000)])),
                ext(a_rev),
            ],
        }],
    };
    for r in [50, 200, 700] {
        assert!(preserves_occupancy(&before, &after, r));
        assert!(transform_preserves_deposit(&before, &after, r));
    }
}
