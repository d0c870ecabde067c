use kerf::hash::{canonical_hash, canonical_hash_u128};
use kerf::ir::lo::{self, Layer, SegmentKind, Toolpath};
use kerf::{Point, Polyline, RegionKind};

/// A one-toolpath program; `e` is the commanded flow in nanometres of E (10⁻⁶ mm).
fn prog(x: i64, e: Option<i64>) -> lo::Program {
    lo::Program {
        layers: vec![Layer {
            z_um: 200,
            toolpaths: vec![Toolpath {
                kind: SegmentKind::Extrude(RegionKind::Perimeter),
                path: Polyline::new(vec![Point::new(x, 0), Point::new(x + 10_000, 0)]),
                width_um: 400,
                flow_e: e,
            }],
        }],
    }
}

#[test]
fn equal_programs_hash_equal_and_are_32_hex_chars() {
    let h = canonical_hash(&prog(0, Some(1_000_000)));
    assert_eq!(h, canonical_hash(&prog(0, Some(1_000_000))));
    assert_eq!(h.len(), 32);
    assert!(h.chars().all(|c| c.is_ascii_hexdigit()));
    assert_eq!(h, format!("{:032x}", canonical_hash_u128(&prog(0, Some(1_000_000)))));
}

#[test]
fn geometry_flow_and_order_all_affect_the_hash() {
    let base = canonical_hash(&prog(0, Some(1_000_000)));
    assert_ne!(base, canonical_hash(&prog(1, Some(1_000_000))), "geometry matters");
    assert_ne!(base, canonical_hash(&prog(0, Some(2_000_000))), "flow matters");
    assert_ne!(base, canonical_hash(&prog(0, None)), "flow presence matters");

    // Toolpath order is part of the identity.
    let a = prog(0, None).layers.remove(0).toolpaths;
    let reordered = lo::Program {
        layers: vec![Layer {
            z_um: 200,
            toolpaths: {
                let mut v = a.clone();
                v.push(Toolpath::extrude(
                    SegmentKind::Extrude(RegionKind::Infill),
                    Polyline::new(vec![Point::new(0, 5000), Point::new(9, 5000)]),
                    300,
                ));
                v
            },
        }],
    };
    let mut swapped = reordered.clone();
    swapped.layers[0].toolpaths.swap(0, 1);
    assert_ne!(canonical_hash(&reordered), canonical_hash(&swapped), "order is part of the content identity");
}

#[test]
fn flow_is_hashed_at_emitter_precision_not_raw_bits() {
    // Two flows agreeing to 1e-5 mm E (below the emitter's resolution) are the same content.
    assert_eq!(
        canonical_hash(&prog(0, Some(222_221))),
        canonical_hash(&prog(0, Some(222_216))),
        "sub-1e-5 flow noise must not change the hash"
    );
    // A difference the emitter *can* represent still changes the hash.
    assert_ne!(canonical_hash(&prog(0, Some(222_220))), canonical_hash(&prog(0, Some(222_230))));
}

#[test]
fn a_travels_inert_width_and_flow_do_not_change_the_identity() {
    let mk = |w: i64, e: Option<i64>| lo::Program {
        layers: vec![Layer {
            z_um: 200,
            toolpaths: vec![Toolpath {
                kind: SegmentKind::Travel,
                path: Polyline::new(vec![Point::new(0, 0), Point::new(1000, 0)]),
                width_um: w,
                flow_e: e,
            }],
        }],
    };
    // width_um / flow_e are never emitted for a travel, so they are not part of its identity.
    assert_eq!(canonical_hash(&mk(0, None)), canonical_hash(&mk(999, Some(3_000_000))));
}

#[test]
fn an_empty_program_has_a_fixed_identity() {
    let e = lo::Program { layers: vec![] };
    assert_eq!(canonical_hash(&e), canonical_hash(&lo::Program { layers: vec![] }));
    assert_ne!(canonical_hash(&e), canonical_hash(&prog(0, None)));
}

#[test]
fn layer_height_is_part_of_the_identity() {
    let mut p = prog(0, None);
    let q = prog(0, None);
    p.layers[0].z_um = 400;
    assert_ne!(canonical_hash(&p), canonical_hash(&q));
}
