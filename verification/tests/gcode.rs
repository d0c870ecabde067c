use kerf::denote::denote_lo;
use kerf::frontend::{parse, ParseReport};
use kerf::ir::lo::SegmentKind;
use kerf::{Point, RegionKind};

const CURA: &str = ";FLAVOR:Marlin\n;Layer height: 0.2\nG21\nM82 ;absolute extrusion mode\nG92 E0\n;LAYER:0\nG0 F3600 X50 Y50 Z0.2\n;TYPE:WALL-OUTER\nG1 F1200 X70 Y50 E1.2\nG1 X70 Y70 E2.4\n;TYPE:FILL\nG1 X50 Y70 E3.6\nG0 X55 Y55\n;LAYER:1\nG0 Z0.4\n;TYPE:SKIN\nG1 X60 Y60 E4.8";

const PRUSA: &str = "; generated by PrusaSlicer 2.4.0\nM83\nG21\n;LAYER_CHANGE\n;Z:0.2\n;HEIGHT:0.2\n;TYPE:Skirt/Brim\n;WIDTH:0.28\nG1 F1200 X100 Y100 E.5\nG1 X120 Y100 E.5\n;TYPE:External perimeter\n;WIDTH:0.45\nG1 X120 Y120 E.7\nG1 E-0.8 F2100\n;LAYER_CHANGE\n;Z:0.4\n;TYPE:Solid infill\nG1 X100 Y120 E.6";

const BBL: &str = "; generated by OrcaSlicer 2.3.1 on Bambu Lab A1\nM83\nG21\n; CHANGE_LAYER\n; Z_HEIGHT: 0.2\n; FEATURE: Outer wall\n; LINE_WIDTH: 0.42\nG1 F1500 X100 Y100 E.4\nG1 X130 Y100 E.6\n; FEATURE: Sparse infill\n; LINE_WIDTH: 0.45\nG1 X130 Y130 E.5";

fn ext_widths(r: &ParseReport) -> Vec<i64> {
    r.program
        .layers
        .iter()
        .flat_map(|l| &l.toolpaths)
        .filter(|t| t.kind.extrudes())
        .map(|t| t.width_um)
        .collect()
}

fn check_invariants(r: &ParseReport) {
    assert_eq!(r.diagnostics.layers, r.program.layers.len());
    let (mut ext, mut trav) = (0usize, 0usize);
    for l in &r.program.layers {
        assert!(!l.toolpaths.is_empty());
    }
    for tp in r.program.layers.iter().flat_map(|l| &l.toolpaths) {
        assert!(tp.path.points.len() >= 2, "toolpath must have >= 2 points");
        for w in tp.path.points.windows(2) {
            assert_ne!(w[0], w[1], "no two consecutive points may be equal");
        }
        if tp.kind.extrudes() {
            assert!(tp.width_um > 0, "extruding toolpath must have positive width");
            ext += 1;
        } else {
            assert_eq!(tp.width_um, 0, "travel width must be 0");
            trav += 1;
        }
    }
    assert_eq!(ext, r.diagnostics.extruding_toolpaths);
    assert_eq!(trav, r.diagnostics.travel_toolpaths);
}

#[test]
fn cura_two_layers_roles_and_estimated_width() {
    let r = parse(CURA);
    assert_eq!(r.program.layers.iter().map(|l| l.z_um).collect::<Vec<_>>(), vec![200, 400]);
    assert_eq!(r.program.extrusion_move_count(), 3); // wall, fill, skin
    assert!(r.diagnostics.unknown_roles.is_empty());
    assert_eq!(r.diagnostics.fallback_role_moves, 0);
    assert!(r.diagnostics.estimated_width_moves > 0); // Cura has no ;WIDTH:
}

#[test]
fn prusa_relative_e_retraction_is_travel_and_unknown_role_flagged() {
    let r = parse(PRUSA);
    assert_eq!(r.program.layers.iter().map(|l| l.z_um).collect::<Vec<_>>(), vec![200, 400]);
    assert_eq!(r.program.extrusion_move_count(), 3); // skirt, ext-perim, solid-infill
    assert!(r.diagnostics.unknown_roles.iter().any(|s| s == "Skirt/Brim"));
    assert_eq!(r.diagnostics.fallback_role_moves, 2); // two skirt moves used the fallback role
    assert_eq!(ext_widths(&r), vec![280, 450, 450]); // sticky ;WIDTH: in microns
    assert_eq!(r.diagnostics.travel_toolpaths, 0); // retraction (no XY) is not a travel toolpath
}

#[test]
fn bbl_feature_and_line_width_tags() {
    let r = parse(BBL);
    assert_eq!(r.program.layers.len(), 1);
    assert_eq!(r.program.layers[0].z_um, 200);
    assert_eq!(ext_widths(&r), vec![420, 450]);
    assert!(r.diagnostics.unknown_roles.is_empty());
}

#[test]
fn parsed_program_denotes() {
    let r = parse(PRUSA);
    let occ = denote_lo(&r.program, 200);
    assert!(occ.layers.iter().any(|l| !l.cells.is_empty()));
}

#[test]
fn sf1_overflow_move_does_not_delete_the_next_extrude() {
    // A single oversized coordinate must not consume the E baseline and flip the next real
    // extrude into a travel.
    let g = ";TYPE:WALL-OUTER\nG1 X5 Y0 E5\nG1 X99999999999999999 Y0 E10\nG1 X8 Y8 E6";
    let r = parse(g);
    assert_eq!(r.diagnostics.overflow_skips, 1);
    assert_eq!(r.diagnostics.travel_toolpaths, 0); // the third move stays an extrude
    assert!(r.program.extrusion_move_count() >= 1);
    let last = r.program.layers.last().unwrap().toolpaths.last().unwrap();
    assert_eq!(*last.path.points.last().unwrap(), Point::new(8000, 8000));
}

#[test]
fn re1_subresolution_move_is_zero_length_not_a_duplicate_vertex() {
    // Second move is a real extrusion (E2 > E1) but rounds to the same micron point.
    let r = parse(";TYPE:WALL-OUTER\nG1 X10 Y10 E1\nG1 X10.0000001 Y10 E2");
    assert_eq!(r.program.extrusion_move_count(), 1);
    assert_eq!(r.diagnostics.zero_length_extrudes, 1);
    let pts = &r.program.layers[0].toolpaths[0].path.points;
    assert_eq!(pts, &vec![Point::new(0, 0), Point::new(10_000, 10_000)]);
}

#[test]
fn re3_subresolution_travel_emits_no_degenerate_segment() {
    let r = parse(";TYPE:WALL-OUTER\nG1 X10 Y10 E1\nG1 X10.0000001 Y10");
    assert_eq!(r.diagnostics.travel_toolpaths, 0);
}

#[test]
fn sm1_travel_zhop_does_not_create_a_spurious_layer() {
    let r = parse(";LAYER:0\nG1 X10 Y10 Z0.2 E1\nG0 Z0.6\nG1 X20 Y10 E2");
    assert_eq!(r.program.layers.len(), 1);
    assert_eq!(r.program.layers[0].z_um, 200); // both extrudes filed at 200, not 600
    let last = r.program.layers[0].toolpaths.last().unwrap();
    assert_eq!(*last.path.points.last().unwrap(), Point::new(20_000, 10_000));
}

#[test]
fn trw1_formula_width_splits_on_a_real_change() {
    // Same role, no ;WIDTH: comments, two beads with a >2x width difference => two toolpaths.
    let r = parse(";Layer height:0.2\n;TYPE:WALL-OUTER\nG1 X10 Y0 E1\nG1 X10 Y10 E5");
    let w = ext_widths(&r);
    assert_eq!(w.len(), 2, "a 5x flow change must not collapse to one width: {w:?}");
    assert!(w[1] as f64 > 2.0 * w[0] as f64);
}

#[test]
fn trw1_near_identical_formula_widths_do_not_over_fragment() {
    let r = parse(";Layer height:0.2\n;TYPE:WALL-OUTER\nG1 X10 Y0 E1\nG1 X20 Y0 E1\nG1 X30 Y0 E1");
    assert_eq!(ext_widths(&r).len(), 1); // constant flow => one toolpath
}

#[test]
fn trw3_role_does_not_leak_across_a_layer_boundary() {
    let r = parse(";TYPE:SUPPORT\nG1 X10 Y10 Z0.2 E1\n;LAYER:1\nG1 X20 Y20 Z0.4 E2");
    // The second (untyped) extrude must NOT silently inherit Support; it falls back + is recorded.
    let last = r.program.layers.last().unwrap().toolpaths.last().unwrap();
    assert_eq!(last.kind, SegmentKind::Extrude(RegionKind::Perimeter));
    assert!(r.diagnostics.fallback_role_moves >= 1);
    assert!(r.diagnostics.unknown_roles.iter().any(|s| s == "<no ;TYPE:>"));
}

#[test]
fn re4_overflowing_g92_position_does_not_create_a_phantom_origin_edge() {
    let r = parse("G92 X10000000000000000 Y0\nG1 X10 Y10 E1");
    assert!(r.diagnostics.overflow_skips >= 1);
    assert_eq!(r.program.extrusion_move_count(), 0); // skipped, not a phantom edge from (0,0)
}

/// The flattened points of a quarter circle (start (10,0) -> end (0,10) about the origin) must lie
/// on the radius-10 circle, hit the 45° point, and land exactly on both commanded endpoints.
fn assert_quarter_circle(pts: &[Point]) {
    assert_eq!(*pts.first().unwrap(), Point::new(10_000, 0));
    assert_eq!(*pts.last().unwrap(), Point::new(0, 10_000));
    for p in pts {
        let r = ((p.x as f64).powi(2) + (p.y as f64).powi(2)).sqrt();
        assert!((r - 10_000.0).abs() < 30.0, "point {p:?} not on the arc (r={r})");
    }
    assert!(pts.len() > 5, "arc should flatten to many chords, got {}", pts.len());
    let mid = pts[pts.len() / 2];
    let mid_r = ((mid.x as f64).powi(2) + (mid.y as f64).powi(2)).sqrt();
    assert!((mid_r - 10_000.0).abs() < 30.0, "arc midpoint not on the circle: {mid:?}");
}

#[test]
fn arc_ij_form_flattens_to_the_circle() {
    // G3 (CCW) from (10,0) to (0,10) about the origin: I = -10, J = 0 (offset to centre).
    let r = parse(";LAYER_CHANGE\n;Z:0.2\n;TYPE:Perimeter\nG0 X10 Y0\nG3 X0 Y10 I-10 J0 E1");
    assert_eq!(r.diagnostics.arcs_flattened, 1);
    assert_eq!(r.program.extrusion_move_count(), 1);
    assert_quarter_circle(&r.program.layers[0].toolpaths[0].path.points);
}

#[test]
fn arc_r_form_matches_the_ij_form() {
    // Same quarter circle via the radius form: positive R selects the minor (90°) arc.
    let r = parse(";LAYER_CHANGE\n;Z:0.2\n;TYPE:Perimeter\nG0 X10 Y0\nG3 X0 Y10 R10 E1");
    assert_eq!(r.diagnostics.arcs_flattened, 1);
    assert_quarter_circle(&r.program.layers[0].toolpaths[0].path.points);
}

#[test]
fn arc_without_centre_info_falls_back_to_a_straight_chord() {
    let r = parse(";LAYER_CHANGE\n;Z:0.2\n;TYPE:Perimeter\nG0 X10 Y0\nG3 X0 Y10 E1");
    assert_eq!(r.diagnostics.arcs_flattened, 1);
    let pts = &r.program.layers[0].toolpaths[0].path.points;
    assert_eq!(pts, &vec![Point::new(10_000, 0), Point::new(0, 10_000)]);
}

#[test]
fn arc_with_only_one_offset_still_flattens() {
    // `G2 X-10 Y0 I-10` (J omitted, defaults to 0): a CW semicircle about the origin, NOT a chord.
    let r = parse(";LAYER_CHANGE\n;Z:0.2\n;TYPE:Perimeter\nG0 X10 Y0\nG2 X-10 Y0 I-10 E1");
    assert_eq!(r.diagnostics.arcs_flattened, 1);
    let pts = &r.program.layers[0].toolpaths[0].path.points;
    assert!(pts.len() > 5, "single-offset arc collapsed to a chord: {pts:?}");
    assert_eq!(*pts.first().unwrap(), Point::new(10_000, 0));
    assert_eq!(*pts.last().unwrap(), Point::new(-10_000, 0));
    for p in pts {
        let radius = ((p.x as f64).powi(2) + (p.y as f64).powi(2)).sqrt();
        assert!((radius - 10_000.0).abs() < 30.0);
    }
    assert!(pts.iter().any(|p| p.y < -9000), "CW semicircle should bulge to -y");
}

#[test]
fn malformed_input_never_panics() {
    for junk in [
        "",
        "\n\n\r\n",
        ";just a comment",
        "G1 X Y E",
        "G1 X1e999 Y1",
        "G1 XNaN Y1",
        "N5 G1 X1 Y2*36",
        "G2 X1 Y1 I0.5 J0",
        "M104 S200",
        "G1(inline paren)X10 Y10 E1",
        "garbage \0 bytes \t 123 ;;;",
    ] {
        check_invariants(&parse(junk));
    }
}

// ---- further cases of this library ----

#[test]
fn lines_are_counted_as_newline_separated_pieces() {
    assert_eq!(parse("").diagnostics.lines, 1);
    assert_eq!(parse("G1 X1\nG1 X2\n").diagnostics.lines, 3);
}

#[test]
fn formula_width_uses_the_filament_cross_section() {
    // 1 mm of 1.75 mm filament over 10 mm at 0.2 mm layers: 355/113·0.875²/(0.2·10) mm = 1203 µm.
    let r = parse(";Layer height:0.2\n;TYPE:WALL-OUTER\nG1 X10 Y0 E1");
    assert_eq!(ext_widths(&r), vec![1203]);
    assert_eq!(r.diagnostics.estimated_width_moves, 1);
}

#[test]
fn nominal_width_without_a_layer_height() {
    let r = parse(";TYPE:WALL-OUTER\nG1 X10 Y0 E1");
    assert_eq!(ext_widths(&r), vec![400]);
}

#[test]
fn volumetric_e_is_volume_over_height_and_length() {
    // M200 D1.75: E is mm³, so 0.2 mm³ over 10 mm at 0.2 mm layers is 0.1 mm = 100 µm.
    let r = parse("M200 D1.75\n;Layer height:0.2\n;TYPE:WALL-OUTER\nG1 X10 Y0 E0.2");
    assert_eq!(ext_widths(&r), vec![100]);
}

#[test]
fn unknown_codes_are_recorded_once() {
    let r = parse("M104 S200\nG28\nM104 S210\nT0\n");
    let codes: Vec<&str> = r.diagnostics.skipped_codes.iter().map(|s| s.as_str()).collect();
    assert_eq!(codes, vec!["M104", "G28", "T0"]);
}

#[test]
fn g91_moves_are_skipped_and_counted() {
    let r = parse("G91\nG1 X10 Y0 E1\nG90\n;TYPE:WALL-OUTER\nG1 X10 Y0 E1");
    assert_eq!(r.diagnostics.skipped_g91_moves, 1);
    assert_eq!(r.program.extrusion_move_count(), 1);
}

#[test]
fn inch_units_scale_positions() {
    let r = parse("G20\n;TYPE:WALL-OUTER\nG1 X1 Y0 E0.1");
    let pts = &r.program.layers[0].toolpaths[0].path.points;
    assert_eq!(pts, &vec![Point::new(0, 0), Point::new(25_400, 0)]);
}

#[test]
fn a_g92_jump_starts_a_new_toolpath() {
    // The head is re-homed without moving: the next extrusion does not join the previous path.
    let r = parse(";TYPE:WALL-OUTER\nG1 X10 Y0 E1\nG92 X0\nG1 X10 Y0 E2");
    check_invariants(&r);
    assert_eq!(r.program.layers[0].toolpaths.len(), 2);
}

#[test]
fn travel_between_extrusions_is_a_travel_toolpath() {
    let r = parse(";TYPE:WALL-OUTER\nG1 X10 Y0 E1\nG0 X20 Y0\nG1 X30 Y0 E2");
    check_invariants(&r);
    assert_eq!(r.diagnostics.travel_toolpaths, 1);
    assert_eq!(r.diagnostics.extruding_toolpaths, 2);
}

#[test]
fn full_circle_when_start_equals_end() {
    let r = parse(";TYPE:Perimeter\nG0 X10 Y0\nG2 X10 Y0 I-10 J0 E1");
    check_invariants(&r);
    let pts = &r.program.layers[0].toolpaths[0].path.points;
    assert!(pts.len() > 20);
    assert_eq!(*pts.last().unwrap(), Point::new(10_000, 0));
}

#[test]
fn generated_inputs_hold_the_structural_invariants() {
    let lines = [
        "G1 X3 Y4 E0.5",
        "G0 X-7 Y2",
        "G0 Z0.4",
        ";LAYER_CHANGE",
        "; CHANGE_LAYER",
        ";Z:0.6",
        "M82",
        "M83",
        "G92 E0",
        ";TYPE:WALL-OUTER",
        ";TYPE:Bogus",
        ";WIDTH:0.45",
        "G2 X1 Y1 I0.5",
        "M104 S200",
        "G1 X3 Y4 E1.5",
        "G1 X3 Y4 E2.5",
    ];
    let mut state = 0x9e37_79b9_7f4a_7c15u64;
    for _ in 0..200 {
        let mut text = String::new();
        for _ in 0..30 {
            state = state.wrapping_mul(6364136223846793005).wrapping_add(1442695040888963407);
            text.push_str(lines[(state >> 33) as usize % lines.len()]);
            text.push('\n');
        }
        check_invariants(&parse(&text));
    }
}

#[test]
fn parsed_gcode_carries_commanded_flow() {
    // Real slicer output has E words; the parser must recover commanded flow.
    let g = "M83\nG21\n;LAYER_CHANGE\n;Z:0.2\n;TYPE:Perimeter\nG1 X10 Y0 E0.5\nG1 X20 Y0 E0.5";
    let prog = parse(g).program;
    let extruding: Vec<&kerf::ir::lo::Toolpath> = prog
        .layers
        .iter()
        .flat_map(|l| l.toolpaths.iter())
        .filter(|t| matches!(t.kind, SegmentKind::Extrude(_)))
        .collect();
    let e_total: f64 = extruding.iter().filter_map(|t| t.flow_e).map(|nm| nm as f64 / 1e6).sum();
    assert!((e_total - 1.0).abs() < 1e-6, "expected E total 1.0");
    let without_flow = extruding.iter().filter(|t| t.flow_e.is_none()).count();
    assert_eq!(without_flow, 0);
}

#[test]
fn flow_is_summed_per_toolpath_in_nanometres_and_travel_has_none() {
    let g = "M83\n;TYPE:Perimeter\n;WIDTH:0.4\nG1 X10 Y0 Z0.2 E0.25\nG1 X20 Y0 E0.125\nG0 X20 Y20\n;WIDTH:0.6\nG1 X30 Y20 E0.0004";
    let prog = parse(g).program;
    let flows: Vec<(bool, Option<i64>)> = prog.layers[0]
        .toolpaths
        .iter()
        .map(|t| (matches!(t.kind, SegmentKind::Extrude(_)), t.flow_e))
        .collect();
    assert_eq!(flows, vec![(true, Some(375_000)), (false, None), (true, Some(400))]);
}
