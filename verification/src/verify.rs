//! End-to-end verification of real slicer output: parse G-code into the IR, then check pass
//! soundness (the denotation before and after a pass agree) and translation-invariance at a chosen
//! raster resolution. A verdict requires recovered geometry, so an unextractable file never reads
//! as sound.
use vstd::prelude::*;
use vstd::string::StringSliceAdditionalSpecFns;

use crate::coverage::eff_res;
use crate::denote::{denote_lo, lo_occupancy, view_deposit, view_occupancy, Occupancy};
use crate::frontend::gcode::{count_byte, count_toolpaths, layers_ok, parse, Diagnostics, ParseReport};
use crate::ir::lo;
use crate::metamorphic::{is_cell_shift, shift_fits, translate_view, translation_invariant};
use crate::pass::travel_order::TravelOrder;
use crate::pass::{counts_fit, preserves_denotation, preserves_deposit, Pass};
use crate::raster::cell_list;

verus! {

/// The whole-cell shift, in cells along X, used for the translation check.
pub const SHIFT_CELLS_X: i64 = 3;

/// The whole-cell shift, in cells along Y, used for the translation check.
pub const SHIFT_CELLS_Y: i64 = 5;

/// The outcome of verifying a G-code file end to end.
#[derive(Clone, Debug, PartialEq, Eq)]
pub struct GcodeVerification {
    pub diagnostics: Diagnostics,
    /// Resolution (microns) the checks were run at.
    pub resolution_um: i64,
    /// Whether any extruding geometry was recovered. If false the checks are vacuously true and
    /// [`GcodeVerification::ok`] is not satisfied.
    pub has_geometry: bool,
    /// A Kerf pass preserved the deposited material (set of covered cells) of the parsed program.
    pub pass_preserves_denotation: bool,
    /// A Kerf pass preserved the per-cell deposition count: a stricter check that also rejects
    /// duplicated deposition, not just changes to the touched-cell set.
    pub pass_preserves_deposit: bool,
    /// The parsed program is translation-invariant under a whole-cell shift.
    pub translation_invariant: bool,
}

impl GcodeVerification {
    /// Geometry was recovered and it survived Kerf's transforms unchanged.
    pub open spec fn is_sound(&self) -> bool {
        self.has_geometry && self.pass_preserves_denotation && self.pass_preserves_deposit
            && self.translation_invariant
    }

    /// True iff geometry was recovered and it survived Kerf's transforms unchanged.
    pub fn ok(&self) -> (r: bool)
        ensures
            r == self.is_sound(),
    {
        self.has_geometry && self.pass_preserves_denotation && self.pass_preserves_deposit
            && self.translation_invariant
    }
}

/// The result of a round-trip check: does emitting a move plan to G-code and re-parsing it recover
/// the same deposited material?
#[derive(Clone, Debug, PartialEq, Eq)]
pub struct RoundTrip {
    pub resolution_um: i64,
    /// Whether the input program has any extruding geometry. If false the check is vacuous and
    /// [`RoundTrip::ok`] is not satisfied.
    pub has_geometry: bool,
    /// The emitted-then-reparsed program covers the same set of cells.
    pub occupancy_preserved: bool,
    /// ...and with the same per-cell deposition count.
    pub deposit_preserved: bool,
}

impl RoundTrip {
    /// The program had geometry and both its covered cells and deposition counts survived.
    pub open spec fn is_sound(&self) -> bool {
        self.has_geometry && self.occupancy_preserved && self.deposit_preserved
    }

    /// True iff the program had geometry and both the covered cells and their deposition counts
    /// survived emit -> re-parse.
    pub fn ok(&self) -> (r: bool)
        ensures
            r == self.is_sound(),
    {
        self.has_geometry && self.occupancy_preserved && self.deposit_preserved
    }
}

/// The pass every verification runs: nearest-neighbour travel ordering from the origin, with
/// reversal allowed.
pub open spec fn default_travel_order() -> TravelOrder {
    TravelOrder { start: crate::ir::Point { x: 0, y: 0 }, allow_reverse: true }
}

/// Whether every occupied cell can be moved by `(cx, cy)` cells within the `i64` range.
pub fn occupancy_shift_fits(occ: &Occupancy, cx: i64, cy: i64) -> (r: bool)
    ensures
        r == shift_fits(occ@, cx, cy),
{
    let mut l: usize = 0;
    while l < occ.layers.len()
        invariant
            l <= occ.layers.len(),
            forall|t: int, c: (i64, i64)|
                0 <= t < l && #[trigger] occ@[t].2.contains(c) ==> i64::MIN <= c.0 + cx <= i64::MAX && i64::MIN
                    <= c.1 + cy <= i64::MAX,
        decreases occ.layers.len() - l,
    {
        let list = cell_list(&occ.layers[l].cells);
        proof {
            assert(occ@[l as int] == occ.layers@[l as int]@);
        }
        let mut k: usize = 0;
        while k < list.len()
            invariant
                k <= list.len(),
                l < occ.layers.len(),
                list@ == crate::raster::ordered_cells(occ.layers@[l as int].cells@),
                crate::raster::sorted_enum(list@, occ.layers@[l as int].cells@),
                forall|t: int| 0 <= t < k ==> i64::MIN <= (#[trigger] list@[t]).0 + cx <= i64::MAX && i64::MIN
                    <= list@[t].1 + cy <= i64::MAX,
            decreases list.len() - k,
        {
            let c = list[k];
            let ok_x = if cx >= 0 { c.0 <= i64::MAX - cx } else { c.0 >= i64::MIN - cx };
            let ok_y = if cy >= 0 { c.1 <= i64::MAX - cy } else { c.1 >= i64::MIN - cy };
            if !(ok_x && ok_y) {
                proof {
                    assert(list@[k as int] == c);
                    assert(list@.contains(c));
                    assert(list@.to_set().contains(c));
                    assert(occ@[l as int].2.contains(c));
                }
                return false;
            }
            k += 1;
        }
        proof {
            assert forall|c: (i64, i64)| #[trigger] occ@[l as int].2.contains(c) implies i64::MIN <= c.0 + cx
                <= i64::MAX && i64::MIN <= c.1 + cy <= i64::MAX by {
                assert(list@.to_set().contains(c));
                assert(list@.contains(c));
                let t = choose|t: int| 0 <= t < list@.len() && list@[t] == c;
                assert(i64::MIN <= list@[t].0 + cx <= i64::MAX);
            }
        }
        l += 1;
    }
    true
}

/// Verify an already-parsed report: run the travel-ordering pass and the whole-cell translation
/// check on its program at `resolution_um`.
pub fn verify_parsed(report: ParseReport, resolution_um: i64) -> (v: GcodeVerification)
    requires
        resolution_um <= i64::MAX / 5,
    ensures
        v.diagnostics == report.diagnostics,
        v.resolution_um == resolution_um,
        v.has_geometry == (report.diagnostics.extruding_toolpaths >= 1),
        v.pass_preserves_denotation,
        v.pass_preserves_deposit == (counts_fit(report.program@) && counts_fit(
            default_travel_order().spec_run(report.program@),
        )),
        v.translation_invariant == (shift_fits(
            lo_occupancy(report.program.layers@, eff_res(resolution_um as int)),
            SHIFT_CELLS_X,
            SHIFT_CELLS_Y,
        ) && is_cell_shift(
            view_occupancy(report.program@, eff_res(resolution_um as int)),
            view_occupancy(
                translate_view(
                    report.program@,
                    (SHIFT_CELLS_X * eff_res(resolution_um as int)) as i64,
                    (SHIFT_CELLS_Y * eff_res(resolution_um as int)) as i64,
                ),
                eff_res(resolution_um as int),
            ),
            SHIFT_CELLS_X,
            SHIFT_CELLS_Y,
        )),
{
    let prog = &report.program;
    let pass = TravelOrder::default();
    let has_geometry = report.diagnostics.extruding_toolpaths >= 1;
    let denotation = preserves_denotation(&pass, prog, resolution_um);
    let deposit = preserves_deposit(&pass, prog, resolution_um);
    proof {
        crate::pass::travel_order::lemma_travel_order_preserves(pass, prog@, resolution_um as int);
    }
    let r: i64 = if resolution_um < 1 { 1 } else { resolution_um };
    let occ = denote_lo(prog, r);
    let fits = occupancy_shift_fits(&occ, SHIFT_CELLS_X, SHIFT_CELLS_Y);
    let shift_ok = if fits {
        translation_invariant(prog, SHIFT_CELLS_X, SHIFT_CELLS_Y, resolution_um)
    } else {
        false
    };
    GcodeVerification {
        diagnostics: report.diagnostics,
        resolution_um,
        has_geometry,
        pass_preserves_denotation: denotation,
        pass_preserves_deposit: deposit,
        translation_invariant: shift_ok,
    }
}

/// Parse real slicer G-code and verify Kerf's operations are sound on the recovered geometry.
///
/// The diagnostics are those [`crate::frontend::parse`] reports for the text; the travel-ordering
/// pass always preserves the covered cells; the verdict has geometry exactly when an extruding
/// toolpath was recovered; and the other checks are those of
/// [`verify_parsed`] on the parsed program, whose move plan is the text's
/// ([`crate::frontend::machine::gcode_plan`]).
pub fn verify_gcode(gcode: &str, resolution_um: i64) -> (v: GcodeVerification)
    requires
        gcode.spec_bytes().len() <= isize::MAX,
        resolution_um <= i64::MAX / 5,
    ensures
        v.resolution_um == resolution_um,
        v.diagnostics.lines == count_byte(gcode.spec_bytes(), 10) + 1,
        crate::frontend::gcode::diag_counts(v.diagnostics, crate::frontend::machine::gcode_final(gcode.spec_bytes())),
        crate::frontend::gcode::texts_recorded(v.diagnostics, crate::frontend::machine::gcode_final(gcode.spec_bytes())),
        v.has_geometry == (v.diagnostics.extruding_toolpaths >= 1),
        v.pass_preserves_denotation,
        exists|p: lo::Program|
            {
                &&& p@ == crate::frontend::machine::gcode_plan(gcode.spec_bytes())
                &&& layers_ok(p.layers@)
                &&& v.diagnostics.layers == p.layers@.len()
                &&& (count_toolpaths(p.layers@) <= usize::MAX ==> v.diagnostics.extruding_toolpaths
                    == lo::count_extruding_layers(p.layers@) && v.diagnostics.extruding_toolpaths
                    + v.diagnostics.travel_toolpaths == count_toolpaths(p.layers@))
                &&& v.pass_preserves_deposit == (counts_fit(p@) && counts_fit(
                    default_travel_order().spec_run(p@),
                ))
                &&& v.translation_invariant == (shift_fits(
                    lo_occupancy(p.layers@, eff_res(resolution_um as int)),
                    SHIFT_CELLS_X,
                    SHIFT_CELLS_Y,
                ) && is_cell_shift(
                    view_occupancy(p@, eff_res(resolution_um as int)),
                    view_occupancy(
                        translate_view(
                            p@,
                            (SHIFT_CELLS_X * eff_res(resolution_um as int)) as i64,
                            (SHIFT_CELLS_Y * eff_res(resolution_um as int)) as i64,
                        ),
                        eff_res(resolution_um as int),
                    ),
                    SHIFT_CELLS_X,
                    SHIFT_CELLS_Y,
                ))
            },
{
    let report = parse(gcode);
    let ghost p = report.program;
    let v = verify_parsed(report, resolution_um);
    assert(layers_ok(p.layers@));
    v
}

} // verus!
