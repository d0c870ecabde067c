use std::collections::BTreeSet;

use kerf::render::{diff_pngs_from_gcode, render_diff_png, render_occupancy_png};

fn decode(png: &[u8]) -> (u32, u32, Vec<u8>) {
    let dec = png::Decoder::new(png);
    let mut reader = dec.read_info().unwrap();
    let mut buf = vec![0; reader.output_buffer_size()];
    let info = reader.next_frame(&mut buf).unwrap();
    buf.truncate(info.buffer_size());
    (info.width, info.height, buf)
}

#[test]
fn diff_renders_a_valid_png() {
    let a: BTreeSet<(i64, i64)> = [(0, 0), (1, 0), (2, 0), (0, 1)].into_iter().collect();
    let b: BTreeSet<(i64, i64)> = [(0, 0), (1, 0)].into_iter().collect();
    let png = render_diff_png(&a, &b, 64);
    assert_eq!(&png[..8], b"\x89PNG\r\n\x1a\n");
    let (w, h, _) = decode(&png);
    assert_eq!((w, h), (3, 2)); // union bbox
}

#[test]
fn empty_diff_is_a_blank_png() {
    let e = BTreeSet::new();
    let png = render_diff_png(&e, &e, 64);
    let (w, h, px) = decode(&png);
    assert_eq!((w, h), (1, 1));
    assert_eq!(px, vec![255, 255, 255]);
}

#[test]
fn diff_from_gcode_produces_one_png_per_layer() {
    let a = "M83\n;LAYER_CHANGE\n;Z:0.2\n;TYPE:Perimeter\nG1 X10 Y0 E.4\nG1 X10 Y10 E.4\n;LAYER_CHANGE\n;Z:0.4\nG1 X10 Y0 E.4";
    let b = a.replace("X10 Y10", "X10 Y40"); // layer 0 differs
    let pngs = diff_pngs_from_gcode(a, &b, 200, 128);
    assert_eq!(pngs.len(), 2);
    for (_, png) in &pngs {
        assert_eq!(&png[..8], b"\x89PNG\r\n\x1a\n");
    }
}

#[test]
fn diff_colours_shared_only_a_and_only_b_with_y_up() {
    // Cells (0,0) shared, (1,0) only in A, (0,1) only in B: a 2x2 image, row 0 is y = 1.
    let a: BTreeSet<(i64, i64)> = [(0, 0), (1, 0)].into_iter().collect();
    let b: BTreeSet<(i64, i64)> = [(0, 0), (0, 1)].into_iter().collect();
    let (w, h, px) = decode(&render_diff_png(&a, &b, 64));
    assert_eq!((w, h), (2, 2));
    let at = |x: usize, y: usize| px[(y * 2 + x) * 3..(y * 2 + x) * 3 + 3].to_vec();
    assert_eq!(at(0, 0), vec![40, 80, 220]); // (0,1): only in B
    assert_eq!(at(1, 0), vec![255, 255, 255]); // (1,1): empty
    assert_eq!(at(0, 1), vec![160, 160, 160]); // (0,0): shared
    assert_eq!(at(1, 1), vec![220, 40, 40]); // (1,0): only in A
}

#[test]
fn large_spans_are_scaled_to_max_px() {
    let a: BTreeSet<(i64, i64)> = [(0, 0), (999, 499)].into_iter().collect();
    let (w, h, _) = decode(&render_occupancy_png(&a, 100));
    assert_eq!((w, h), (100, 100));
}

#[test]
fn layers_are_sorted_by_height() {
    let a = "M83\n;LAYER_CHANGE\n;Z:0.2\n;TYPE:Perimeter\nG1 X10 Y0 E.4\n;LAYER_CHANGE\n;Z:0.6\nG1 X10 Y10 E.4";
    let b = "M83\n;LAYER_CHANGE\n;Z:0.2\n;TYPE:Perimeter\nG1 X10 Y0 E.4\n;LAYER_CHANGE\n;Z:0.4\nG1 X10 Y10 E.4\n;LAYER_CHANGE\n;Z:0.6\nG1 X0 Y10 E.4";
    let zs: Vec<i64> = diff_pngs_from_gcode(a, b, 200, 64).into_iter().map(|(z, _)| z).collect();
    assert_eq!(zs, vec![200, 600]);
}

#[test]
fn heights_of_one_side_only_get_no_png() {
    let a = "M83\n;LAYER_CHANGE\n;Z:0.6\n;TYPE:Perimeter\nG1 X10 Y0 E.4";
    let b = "M83\n;LAYER_CHANGE\n;Z:0.2\n;TYPE:Perimeter\nG1 X10 Y0 E.4";
    assert!(diff_pngs_from_gcode(a, b, 200, 64).is_empty());
}
