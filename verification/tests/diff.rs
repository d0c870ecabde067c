use kerf::diff::{diff_gcode, diff_programs, GcodeDiff};
use kerf::frontend::parse;
use kerf::pass::{Pass, TravelOrder};

const A: &str = "M83\nG21\n;LAYER_CHANGE\n;Z:0.2\n;TYPE:Perimeter\n;WIDTH:0.45\nG1 X0 Y0 E.1\nG1 X20 Y0 E.5\nG1 X20 Y20 E.5";

/// Intersection-over-union of the deposited material; `None` when both sides are empty.
fn iou(d: &GcodeDiff) -> Option<f64> {
    let union = d.total_shared + d.total_only_in_a + d.total_only_in_b;
    (union > 0).then(|| d.total_shared as f64 / union as f64)
}

#[test]
fn a_file_is_identical_to_itself() {
    let d = diff_gcode(A, A, 200);
    assert!(d.identical);
    assert!(!d.both_empty);
    assert_eq!(iou(&d), Some(1.0));
    assert_eq!(d.total_only_in_a, 0);
    assert_eq!(d.total_only_in_b, 0);
}

#[test]
fn two_empty_files_are_flagged_both_empty_not_a_real_match() {
    let d = diff_gcode("M104 S200\nG28\n", ";just comments\n", 200);
    assert!(d.both_empty);
    assert_eq!(iou(&d), None);
}

#[test]
fn a_shifted_copy_differs() {
    let b = "M83\nG21\n;LAYER_CHANGE\n;Z:0.2\n;TYPE:Perimeter\n;WIDTH:0.45\nG1 X5 Y50 E.1\nG1 X25 Y50 E.5\nG1 X25 Y70 E.5";
    let d = diff_gcode(A, b, 200);
    assert!(!d.identical);
    assert!(d.total_only_in_a > 0 && d.total_only_in_b > 0);
    assert!(iou(&d).unwrap() < 0.5);
}

#[test]
fn diff_programs_matches_diff_gcode_and_scores_a_pass() {
    let prog = parse(A).program;
    assert_eq!(iou(&diff_programs(&prog, &prog, 200)), Some(1.0));
    let reordered = TravelOrder::default().run(prog.clone());
    assert_eq!(iou(&diff_programs(&prog, &reordered, 200)), Some(1.0));
    assert_eq!(diff_programs(&prog, &prog, 200), diff_gcode(A, A, 200));
}

#[test]
fn different_layer_heights_are_reported_as_disjoint() {
    let b = A.replace(";Z:0.2", ";Z:0.4");
    let d = diff_gcode(A, &b, 200);
    assert!(!d.identical);
    assert_eq!(d.layers.len(), 2);
    assert_eq!(d.total_shared, 0);
    assert_eq!(d.layers[0].z_um, 200);
    assert_eq!(d.layers[1].z_um, 400);
}

#[test]
fn per_layer_counts_sum_to_the_totals() {
    let b = "M83\nG21\n;LAYER_CHANGE\n;Z:0.2\n;TYPE:Perimeter\n;WIDTH:0.45\nG1 X0 Y0 E.1\nG1 X20 Y0 E.5";
    let d = diff_gcode(A, b, 200);
    assert_eq!(d.layers.len(), 1);
    assert_eq!(d.layers[0].only_in_a, d.total_only_in_a);
    assert_eq!(d.layers[0].shared, d.total_shared);
    assert_eq!(d.total_only_in_b, 0);
    assert!(d.total_shared > 0 && d.total_only_in_a > 0);
}
