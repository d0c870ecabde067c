use std::collections::BTreeSet;

use kerf::denote::{denote_hi, denote_lo_deposit, denote_lo_layer, self_lowering_sound, LayerDeposit, LayerOccupancy};
use kerf::ir::hi;
use kerf::ir::lo::{self, SegmentKind, Toolpath};
use kerf::{Area, ExtrudePath, Point, Polyline, RegionKind};

fn layer_of(paths: &[(&Polyline, i64)], z_um: i64) -> lo::Layer {
    lo::Layer {
        z_um,
        toolpaths: paths
            .iter()
            .map(|(p, w)| Toolpath::extrude(SegmentKind::Extrude(RegionKind::Perimeter), (*p).clone(), *w))
            .collect(),
    }
}

fn occupancy_of(paths: &[(&Polyline, i64)], z_um: i64, res: i64) -> LayerOccupancy {
    denote_lo_layer(&layer_of(paths, z_um), res)
}

fn deposit_of(paths: &[(&Polyline, i64)], z_um: i64, res: i64) -> LayerDeposit {
    let prog = lo::Program { layers: vec![layer_of(paths, z_um)] };
    denote_lo_deposit(&prog, res).layers.remove(0)
}

fn square_program() -> hi::Program {
    let outer = Polyline::new(vec![
        Point::new(0, 0),
        Point::new(20_000, 0),
        Point::new(20_000, 20_000),
        Point::new(0, 20_000),
        Point::new(0, 0),
    ]);
    hi::Program {
        layers: vec![hi::Layer {
            z_um: 200,
            regions: vec![hi::Region {
                kind: RegionKind::Perimeter,
                boundary: Area { outer: outer.clone(), holes: vec![] },
                fills: vec![ExtrudePath { path: outer, width_um: 400 }],
            }],
        }],
    }
}

fn single_path(points: Vec<Point>, width_um: i64) -> hi::Program {
    hi::Program {
        layers: vec![hi::Layer {
            z_um: 0,
            regions: vec![hi::Region {
                kind: RegionKind::Infill,
                boundary: Area::default(),
                fills: vec![ExtrudePath { path: Polyline::new(points), width_um }],
            }],
        }],
    }
}

#[test]
fn deposit_counts_repeated_paths_but_occupancy_does_not() {
    let seg = Polyline::new(vec![Point::new(0, 0), Point::new(10_000, 0)]);
    let once = [(&seg, 400i64)];
    let twice = [(&seg, 400i64), (&seg, 400i64)];
    assert_eq!(occupancy_of(&once, 200, 200), occupancy_of(&twice, 200, 200));
    let d1 = deposit_of(&once, 200, 200);
    let d2 = deposit_of(&twice, 200, 200);
    assert_ne!(d1, d2);
    assert!(!d1.cells.is_empty());
    assert_eq!(d1.cells.keys().collect::<Vec<_>>(), d2.cells.keys().collect::<Vec<_>>());
    assert!(d1.cells.values().all(|&c| c == 1));
    assert!(d2.cells.values().all(|&c| c == 2));
}

#[test]
fn occupancy_and_deposit_agree_on_covered_cells() {
    let a = Polyline::new(vec![Point::new(0, 0), Point::new(9000, 4000)]);
    let b = Polyline::new(vec![Point::new(2000, 0), Point::new(2000, 8000)]);
    let paths = [(&a, 400i64), (&b, 300i64)];
    let occ = occupancy_of(&paths, 200, 200);
    let dep_keys: BTreeSet<(i64, i64)> = deposit_of(&paths, 200, 200).cells.keys().copied().collect();
    assert_eq!(occ.cells, dep_keys);
}

#[test]
fn deposit_is_reversal_invariant() {
    let fwd = Polyline::new(vec![Point::new(0, 0), Point::new(7000, 3000), Point::new(9000, 0)]);
    let mut rev_pts = fwd.points.clone();
    rev_pts.reverse();
    let rev = Polyline::new(rev_pts);
    assert_eq!(deposit_of(&[(&fwd, 400)], 200, 200), deposit_of(&[(&rev, 400)], 200, 200));
}

#[test]
fn deposit_counts_paths_not_filament_so_a_single_path_is_always_one_per_cell() {
    let seg = Polyline::new(vec![Point::new(0, 0), Point::new(6000, 0)]);
    for w in [200i64, 400, 800, 1600] {
        let d = deposit_of(&[(&seg, w)], 200, 200);
        assert!(!d.cells.is_empty());
        assert!(d.cells.values().all(|&c| c == 1), "width {w}: a single path must count 1 per cell");
    }
}

#[test]
fn a_square_denotes_nonempty_material() {
    let occ = denote_hi(&square_program(), 200);
    assert_eq!(occ.layers.len(), 1);
    assert!(!occ.layers[0].cells.is_empty());
}

#[test]
fn demo_lowering_is_sound() {
    assert!(self_lowering_sound(&square_program(), 200));
}

#[test]
fn coverage_catches_a_thin_wall_between_grid_centres() {
    let wall = single_path(vec![Point::new(1000, 0), Point::new(1000, 10_000)], 400);
    assert!(!denote_hi(&wall, 1000).layers[0].cells.is_empty());
    assert_ne!(denote_hi(&wall, 1000), denote_hi(&single_path(vec![], 0), 1000));
}

#[test]
fn denote_is_reversal_invariant() {
    let cases = [
        vec![Point::new(0, 0), Point::new(600, 0), Point::new(0, 300)],
        vec![Point::new(1684, 1700), Point::new(506, 1054)],
        vec![Point::new(3, 7), Point::new(29, 11), Point::new(13, 2)],
    ];
    for pts in cases {
        let mut rev = pts.clone();
        rev.reverse();
        assert_eq!(
            denote_hi(&single_path(pts.clone(), 0), 1),
            denote_hi(&single_path(rev, 0), 1),
            "reversal changed denotation for {pts:?}",
        );
    }
}

#[test]
fn denote_discriminates_line_width() {
    let thin = single_path(vec![Point::new(0, 5000), Point::new(10_000, 5000)], 200);
    let thick = single_path(vec![Point::new(0, 5000), Point::new(10_000, 5000)], 400);
    assert_ne!(denote_hi(&thin, 100), denote_hi(&thick, 100));
}

#[test]
fn denote_does_not_panic_on_extreme_coordinates() {
    let big = i64::MAX / 2;
    let prog = single_path(vec![Point::new(big, big), Point::new(big + 1000, big)], 400);
    let occ = denote_hi(&prog, 200);
    assert!(!occ.layers[0].cells.is_empty());
}

fn assert_reversal_invariant(pts: &[Point], width_um: i64) {
    let fwd = single_path(pts.to_vec(), width_um);
    let mut r = pts.to_vec();
    r.reverse();
    let rev = single_path(r, width_um);
    assert_eq!(denote_hi(&fwd, 1), denote_hi(&rev, 1), "reversal changed denotation for {pts:?} w={width_um}");
}

#[test]
fn reversal_invariant_exhaustively_over_small_programs() {
    let grid2 = [0i64, 1, 2, 3, 5, 8, 13];
    let grid3 = [0i64, 1, 3, 7, 13];
    let widths = [0i64, 2, 5];
    let mut checked = 0u64;
    for &w in &widths {
        for &ax in &grid2 {
            for &ay in &grid2 {
                for &bx in &grid2 {
                    for &by in &grid2 {
                        assert_reversal_invariant(&[Point::new(ax, ay), Point::new(bx, by)], w);
                        checked += 1;
                    }
                }
            }
        }
        for &ax in &grid3 {
            for &ay in &grid3 {
                for &bx in &grid3 {
                    for &by in &grid3 {
                        for &cx in &grid3 {
                            for &cy in &grid3 {
                                assert_reversal_invariant(
                                    &[Point::new(ax, ay), Point::new(bx, by), Point::new(cx, cy)],
                                    w,
                                );
                                checked += 1;
                            }
                        }
                    }
                }
            }
        }
    }
    assert!(checked > 40_000, "expected a large exhaustive sweep, got {checked}");
}

/// Exact reference: a cell is covered when its centre lies within `w/2 + r/√2` of the segment,
/// decided over the integers (squared distance `num/den` against the irrational reach).
fn covered(ci: i64, cj: i64, a: Point, b: Point, w: i64, r: i64) -> bool {
    let (a, b) = if a.x < b.x || (a.x == b.x && a.y <= b.y) { (a, b) } else { (b, a) };
    let (cx, cy) = ((ci * r + r / 2) as i128, (cj * r + r / 2) as i128);
    let (ax, ay) = (cx - a.x as i128, cy - a.y as i128);
    let (dx, dy) = ((b.x - a.x) as i128, (b.y - a.y) as i128);
    let len2 = dx * dx + dy * dy;
    let dot = ax * dx + ay * dy;
    let (num, den) = if len2 == 0 || dot <= 0 {
        (ax * ax + ay * ay, 1)
    } else if dot >= len2 {
        ((ax - dx) * (ax - dx) + (ay - dy) * (ay - dy), 1)
    } else {
        let c = ax * dy - ay * dx;
        (c * c, len2)
    };
    let (w, r) = (w.max(0) as i128, r as i128);
    let n = 4 * num - (w * w + 2 * r * r) * den;
    let m = 2 * w * r * den;
    n <= 0 || n * n <= 2 * m * m
}

fn brute(a: Point, b: Point, w: i64, r: i64) -> BTreeSet<(i64, i64)> {
    let pad = w + r + 1;
    let (minx, maxx) = (a.x.min(b.x) - pad, a.x.max(b.x) + pad);
    let (miny, maxy) = (a.y.min(b.y) - pad, a.y.max(b.y) + pad);
    let mut s = BTreeSet::new();
    for ci in minx.div_euclid(r) - 1..=maxx.div_euclid(r) + 1 {
        for cj in miny.div_euclid(r) - 1..=maxy.div_euclid(r) + 1 {
            if covered(ci, cj, a, b, w, r) {
                s.insert((ci, cj));
            }
        }
    }
    s
}

#[test]
fn optimized_raster_marks_exactly_the_bruteforce_set() {
    let mut st = 0x1234_5678u64;
    let mut rng = || {
        st = st.wrapping_mul(6364136223846793005).wrapping_add(1442695040888963407);
        (st >> 33) as i64
    };
    for _ in 0..4000 {
        let a = Point::new(rng().rem_euclid(4000), rng().rem_euclid(4000));
        let b = Point::new(rng().rem_euclid(4000), rng().rem_euclid(4000));
        let w = rng().rem_euclid(800);
        let r = 1 + rng().rem_euclid(400);
        let opt = denote_hi(&single_path(vec![a, b], w), r).layers[0].cells.clone();
        assert_eq!(opt, brute(a, b, w, r), "mismatch a={a:?} b={b:?} w={w} r={r}");
    }
}

#[test]
fn oracle_is_blind_below_resolution() {
    let base = single_path(vec![Point::new(0, 500), Point::new(3000, 500)], 400);
    let nudged = single_path(vec![Point::new(0, 500), Point::new(3001, 500)], 400);
    let moved = single_path(vec![Point::new(0, 500), Point::new(3000, 4000)], 400);
    assert_eq!(denote_hi(&base, 1000), denote_hi(&nudged, 1000));
    assert_ne!(denote_hi(&base, 1000), denote_hi(&moved, 1000));
}

/// Small pseudo-random high-level programs.
fn generated_programs(n: usize) -> Vec<hi::Program> {
    let mut st = 0xfeed_beefu64;
    let mut rng = move |m: i64| {
        st = st.wrapping_mul(6364136223846793005).wrapping_add(1442695040888963407);
        ((st >> 33) as i64).rem_euclid(m)
    };
    let kinds = [RegionKind::Perimeter, RegionKind::Infill, RegionKind::Skin, RegionKind::Support];
    (0..n)
        .map(|_| hi::Program {
            layers: (0..1 + rng(2))
                .map(|_| hi::Layer {
                    z_um: rng(2000),
                    regions: (0..1 + rng(2))
                        .map(|_| hi::Region {
                            kind: kinds[rng(4) as usize],
                            boundary: Area::default(),
                            fills: (0..1 + rng(2))
                                .map(|_| ExtrudePath {
                                    path: Polyline::new(
                                        (0..1 + rng(3)).map(|_| Point::new(rng(2000), rng(2000))).collect(),
                                    ),
                                    width_um: 100 + rng(300),
                                })
                                .collect(),
                        })
                        .collect(),
                })
                .collect(),
        })
        .collect()
}

#[test]
fn lowering_preserves_denotation_over_generated_programs() {
    for prog in generated_programs(48) {
        assert!(self_lowering_sound(&prog, 300));
    }
}

#[test]
fn reversal_invariant_over_generated_programs() {
    for prog in generated_programs(48) {
        let mut rev = prog.clone();
        for layer in &mut rev.layers {
            for region in &mut layer.regions {
                for fill in &mut region.fills {
                    fill.path.points.reverse();
                }
            }
        }
        assert_eq!(denote_hi(&prog, 100), denote_hi(&rev, 100));
    }
}
