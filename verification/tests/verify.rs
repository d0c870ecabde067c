use kerf::frontend::parse;
use kerf::ir::lo;
use kerf::pass::travel_order::TravelOrder;
use kerf::pass::Pass;
use kerf::verify::verify_gcode;

// Disjoint features in travel-wasting order so TravelOrder genuinely reorders rather than no-ops.
const SCATTERED: &str = "M83\nG21\n;LAYER_CHANGE\n;Z:0.2\n;TYPE:External perimeter\n;WIDTH:0.45\nG0 X0 Y0\nG1 X1 Y0 E.1\nG0 X80 Y0\nG1 X81 Y0 E.1\nG0 X20 Y0\nG1 X21 Y0 E.1";

/// Total non-printing travel distance across all layers, in microns.
fn travel_distance_um(p: &lo::Program) -> f64 {
    p.layers
        .iter()
        .flat_map(|l| &l.toolpaths)
        .filter(|t| !t.kind.extrudes())
        .map(|t| {
            t.path
                .points
                .windows(2)
                .map(|w| (((w[1].x - w[0].x) as f64).powi(2) + ((w[1].y - w[0].y) as f64).powi(2)).sqrt())
                .sum::<f64>()
        })
        .sum()
}

#[test]
fn real_slicer_output_survives_kerf_operations_and_the_pass_does_real_work() {
    let report = parse(SCATTERED);
    assert_eq!(report.program.extrusion_move_count(), 3);
    let before = travel_distance_um(&report.program);
    let after = travel_distance_um(&TravelOrder::default().run(report.program.clone()));
    assert!(after < before, "TravelOrder should cut travel: {after} !< {before}");

    let v = verify_gcode(SCATTERED, 200);
    assert!(v.has_geometry);
    assert!(v.pass_preserves_denotation, "TravelOrder changed the parsed print");
    assert!(v.pass_preserves_deposit, "TravelOrder changed per-cell deposition while only reordering");
    assert!(v.translation_invariant);
    assert!(v.ok());
}

#[test]
fn cura_output_survives_kerf_operations() {
    let cura = ";Layer height: 0.2\nG21\nM82\nG92 E0\n;LAYER:0\nG0 X50 Y50 Z0.2\n;TYPE:WALL-OUTER\nG1 X70 Y50 E1.2\nG1 X70 Y70 E2.4\n;LAYER:1\nG0 Z0.4\n;TYPE:SKIN\nG1 X60 Y60 E4.8";
    assert!(verify_gcode(cura, 200).ok());
}

#[test]
fn arc_program_verifies_sound_end_to_end() {
    let arc = "M83\nG21\n;LAYER_CHANGE\n;Z:0.2\n;TYPE:Perimeter\nG0 X10 Y0\nG2 X0 Y10 I-10 J0 E1\nG2 X-10 Y0 I0 J-10 E1";
    let v = verify_gcode(arc, 200);
    assert!(v.has_geometry);
    assert!(v.ok(), "arc-derived geometry failed verification");
}

#[test]
fn no_geometry_is_not_a_green_verdict() {
    let v = verify_gcode("M104 S200\nG28 ; home\nM140 S60\n;comment only", 200);
    assert!(!v.has_geometry);
    assert!(!v.ok(), "a file with no recovered geometry must not verify as sound");
}

#[test]
fn verdict_reports_the_resolution_and_the_diagnostics() {
    let v = verify_gcode(SCATTERED, 300);
    assert_eq!(v.resolution_um, 300);
    assert_eq!(v.diagnostics.extruding_toolpaths, 3);
    assert_eq!(v.diagnostics.lines, 12);
}
