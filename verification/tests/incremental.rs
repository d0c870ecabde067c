use std::time::Instant;

use kerf::denote::denote_lo;
use kerf::incremental::DenoteCache;
use kerf::ir::lo::{self, Layer, SegmentKind, Toolpath};
use kerf::{Point, Polyline, RegionKind};

fn layer(z: i64, x: i64) -> Layer {
    Layer {
        z_um: z,
        toolpaths: vec![Toolpath::extrude(
            SegmentKind::Extrude(RegionKind::Perimeter),
            Polyline::new(vec![Point::new(x, 0), Point::new(x + 10_000, 5_000)]),
            400,
        )],
    }
}

fn stack(n: i64) -> lo::Program {
    lo::Program { layers: (0..n).map(|k| layer((k + 1) * 200, k * 100)).collect() }
}

#[test]
fn incremental_matches_full_denote_after_a_single_layer_edit() {
    let mut prog = stack(100);
    let mut cache = DenoteCache::new(200);
    assert_eq!(cache.occupancy(&prog), &denote_lo(&prog, 200));
    assert_eq!(cache.clean_layers(), 100);
    prog.layers[42].toolpaths[0].path =
        Polyline::new(vec![Point::new(0, 0), Point::new(5_000, 15_000), Point::new(9_000, 1_000)]);
    cache.mark_dirty(42);
    assert_eq!(cache.occupancy(&prog), &denote_lo(&prog, 200));
}

#[test]
fn only_dirty_layers_are_recomputed() {
    let prog = stack(10);
    let mut cache = DenoteCache::new(200);
    cache.occupancy(&prog);
    cache.mark_dirty(3);
    assert_eq!(cache.clean_layers(), 9, "only the dirty layer is uncached");
    cache.occupancy(&prog);
    assert_eq!(cache.clean_layers(), 10);
}

#[test]
fn a_layer_count_change_forces_a_full_recompute_and_stays_correct() {
    let prog = stack(5);
    let mut cache = DenoteCache::new(300);
    cache.occupancy(&prog);
    let bigger = stack(8);
    assert_eq!(cache.occupancy(&bigger), &denote_lo(&bigger, 300));
}

#[test]
fn a_single_layer_re_denote_is_far_cheaper_than_a_full_one() {

    let prog = stack(300);
    let mut cache = DenoteCache::new(100);
    cache.occupancy(&prog);
    let reps = 20;
    let t_full = Instant::now();
    for _ in 0..reps {
        let _ = denote_lo(&prog, 100);
    }
    let full = t_full.elapsed().as_secs_f64() / reps as f64;
    let t_inc = Instant::now();
    for _ in 0..reps {
        cache.mark_dirty(150);
        let _ = cache.occupancy(&prog);
    }
    let inc = t_inc.elapsed().as_secs_f64() / reps as f64;
    assert!(full > inc * 5.0, "single-layer re-denote should be >=5x faster: full={full:.6}s inc={inc:.6}s");
}

#[test]
fn an_unmarked_edit_keeps_the_stale_layer() {
    let mut prog = stack(3);
    let mut cache = DenoteCache::new(200);
    let before = cache.occupancy(&prog).clone();
    prog.layers[1] = layer(400, 50_000);
    // Not marked: the cached layer stands until it is marked dirty.
    assert_eq!(cache.occupancy(&prog), &before);
    cache.mark_all_dirty();
    assert_eq!(cache.clean_layers(), 0);
    assert_eq!(cache.occupancy_cloned(&prog), denote_lo(&prog, 200));
    assert_eq!(cache.resolution_um(), 200);
}
