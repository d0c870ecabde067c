//! The meaning of a G-code text as a move plan: a state machine over its lines.
//!
//! [`Machine`] holds the modal state (units, E and XYZ modes, the position, the layer and role
//! context, the current width) and the plan built so far. Each line updates it ([`line_step`]);
//! the text's plan is what is left after the last line once the open layer is closed
//! ([`gcode_plan`]). Positions are in 10⁻⁹ mm, points in microns.
use vstd::prelude::*;

use super::arc::{arc_centre_spec, flatten_spec, isqrt_spec, sdiv_spec, seg_len2_nm};
use super::gcode::{
    code_label, has_prefix, label_text, lex_from, mm_to_um_spec, number_value, role_of, split_from, width_close_spec,
    ws_end, ws_start, DEFAULT_FILAMENT_D, EPS_E, E_LIMIT, NOMINAL_WIDTH_UM,
};
use crate::ir::lo::{SegmentKind, ToolpathView};
use crate::ir::{Point, RegionKind};

verus! {

/// The toolpath being extended: kind, width, width epoch, points and the E commanded along it
/// (10⁻⁹ mm, saturating at [`FLOW_LIMIT`]).
pub type CurView = (SegmentKind, i64, u64, Seq<Point>, int);

/// The open layer: height, finished toolpaths and the toolpath being extended.
pub type OpenView = (i64, Seq<ToolpathView>, Option<CurView>);

/// The modal state of the reader and the plan built so far.
pub struct Machine {
    /// G20 (inches) rather than G21 (millimetres).
    pub inch: bool,
    /// M82 (absolute E) rather than M83 (relative E).
    pub abs_e: bool,
    /// G91 (relative XYZ) rather than G90.
    pub relative_xyz: bool,
    /// M200 with a diameter: E is volume.
    pub volumetric: bool,
    pub filament_d: i128,
    pub x: i128,
    pub y: i128,
    pub z: i128,
    /// The E baseline.
    pub e_prev: i128,
    pub layer_height_hint: Option<i128>,
    /// A height (µm) announced by a comment for the next layer.
    pub pending_layer_z_um: Option<i64>,
    pub cur_role: Option<RegionKind>,
    /// Whether `cur_role` came from a recognised feature label.
    pub cur_role_known: bool,
    /// The text of the last feature label, trimmed, until a layer marker.
    pub cur_role_raw: Option<Seq<u8>>,
    /// The width (µm) from the last width comment.
    pub width_um: Option<i64>,
    /// Bumped at each change of the commented width.
    pub width_epoch: u64,
    /// A layer marker was seen: the next extrusion opens a new layer.
    pub force_new_layer: bool,
    pub open: Option<OpenView>,
    pub program: Seq<(i64, Seq<ToolpathView>)>,
    /// Extruding moves that took the fallback role.
    pub fallback_role_moves: usize,
    /// Extruding moves whose width was not commented.
    pub estimated_width_moves: usize,
    /// Extruding moves with no XY displacement.
    pub zero_length_extrudes: usize,
    /// Arc moves flattened.
    pub arcs_flattened: usize,
    /// Moves skipped in relative XYZ mode.
    pub skipped_g91_moves: usize,
    /// Moves skipped because a position was not representable in microns.
    pub overflow_skips: usize,
    /// The texts of the labels that fell back to the `Perimeter` role ([`no_type_label`] for
    /// none), each once, in order of first occurrence.
    pub unknown_roles: Seq<Seq<char>>,
    /// The texts of the command codes that changed nothing, each once, in order of first
    /// occurrence.
    pub skipped_codes: Seq<Seq<char>>,
}

/// A list of texts with `t` added at the end unless it is already there.
pub open spec fn noted(ts: Seq<Seq<char>>, t: Seq<char>) -> Seq<Seq<char>> {
    if ts.contains(t) {
        ts
    } else {
        ts.push(t)
    }
}

/// `<no ;TYPE:>`: the label recorded for an extrusion that no feature label preceded.
pub open spec fn no_type_label() -> Seq<u8> {
    seq![60u8, 110, 111, 32, 59, 84, 89, 80, 69, 58, 62]
}

/// A counter after one more event (saturating).
pub open spec fn bumped(c: usize) -> usize {
    if c < usize::MAX {
        (c + 1) as usize
    } else {
        c
    }
}

/// Count an extruding move's width as estimated unless a width was commented.
pub open spec fn width_noted(m: Machine) -> Machine {
    if m.width_um is None {
        Machine { estimated_width_moves: bumped(m.estimated_width_moves), ..m }
    } else {
        m
    }
}

/// Count an extruding move's role as a fallback unless a recognised label set it, and record the
/// label that fell back.
pub open spec fn role_noted(m: Machine) -> Machine {
    if m.cur_role_known && m.cur_role is Some {
        m
    } else {
        let label = match m.cur_role_raw {
            Some(r) => r,
            None => no_type_label(),
        };
        Machine {
            fallback_role_moves: bumped(m.fallback_role_moves),
            unknown_roles: noted(m.unknown_roles, label_text(label)),
            ..m
        }
    }
}

/// Record a command code that changed nothing.
pub open spec fn code_skipped(m: Machine, letter: u8, n: int) -> Machine {
    Machine { skipped_codes: noted(m.skipped_codes, label_text(code_label(letter, n))), ..m }
}

/// The state before the first line: millimetres, absolute E and XYZ, 1.75 mm filament, at the
/// origin, no layer.
pub open spec fn machine_start() -> Machine {
    Machine {
        inch: false,
        abs_e: true,
        relative_xyz: false,
        volumetric: false,
        filament_d: DEFAULT_FILAMENT_D,
        x: 0,
        y: 0,
        z: 0,
        e_prev: 0,
        layer_height_hint: None,
        pending_layer_z_um: None,
        cur_role: None,
        cur_role_known: false,
        cur_role_raw: None,
        width_um: None,
        width_epoch: 0,
        force_new_layer: false,
        open: None,
        program: Seq::empty(),
        fallback_role_moves: 0,
        estimated_width_moves: 0,
        zero_length_extrudes: 0,
        arcs_flattened: 0,
        skipped_g91_moves: 0,
        overflow_skips: 0,
        unknown_roles: Seq::empty(),
        skipped_codes: Seq::empty(),
    }
}

/// The largest commanded E a toolpath accumulates (10⁻⁹ mm): the most whose nanometres fit an
/// `i64`.
pub const FLOW_LIMIT: i128 = 9_223_372_036_854_775_807_000;

/// A toolpath's commanded E after one more move's delta, saturating at [`FLOW_LIMIT`].
pub open spec fn flow_add(acc: int, de: int) -> int {
    let s = acc + de;
    if s > FLOW_LIMIT {
        FLOW_LIMIT as int
    } else if s < -FLOW_LIMIT {
        -FLOW_LIMIT
    } else {
        s
    }
}

/// Commanded E in 10⁻⁹ mm as nanometres, rounded half away from zero.
pub open spec fn flow_nm(acc: int) -> int {
    if acc >= 0 {
        (acc + 500) / 1000
    } else {
        -((-acc + 500) / 1000)
    }
}

/// A finished toolpath: an extrusion carries the E commanded along it, a travel none.
pub open spec fn finish_cur(c: CurView) -> ToolpathView {
    (c.0, c.3, c.1, if c.0 is Travel {
        None
    } else {
        Some(flow_nm(c.4) as i64)
    })
}

/// The finished toolpaths, with the current one closed.
pub open spec fn close_cur(tps: Seq<ToolpathView>, cur: Option<CurView>) -> Seq<ToolpathView> {
    match cur {
        Some(c) => tps.push(finish_cur(c)),
        None => tps,
    }
}

/// Close the open layer: its toolpaths join the plan (a layer without toolpaths is dropped).
#[verifier::opaque]
pub open spec fn flush(m: Machine) -> Machine {
    match m.open {
        None => m,
        Some(o) => {
            let tps = close_cur(o.1, o.2);
            Machine { open: None, program: if tps.len() > 0 { m.program.push((o.0, tps)) } else { m.program }, ..m }
        },
    }
}

/// Open a layer for an extrusion at height `extrude_z`, unless one is open and no layer marker
/// intervened: its height is the announced one, else the extrusion's.
#[verifier::opaque]
pub open spec fn open_layer(m: Machine, extrude_z: int) -> Machine {
    if m.open is None || m.force_new_layer {
        let f = flush(m);
        let z_um = match f.pending_layer_z_um {
            Some(z) => z,
            None => match mm_to_um_spec(extrude_z) {
                Some(z) => z,
                None => 0,
            },
        };
        Machine { open: Some((z_um, Seq::empty(), None)), pending_layer_z_um: None, force_new_layer: false, ..f }
    } else {
        m
    }
}

/// Add the segment `prev -> target`, with the E delta `de` commanded for it, to the open layer:
/// it extends the current toolpath when that ends at `prev` with the same kind, width epoch and
/// (nearly) the same width; otherwise the current toolpath is closed and a new one starts.
/// Nothing happens with no open layer.
#[verifier::opaque]
pub open spec fn push_segment(m: Machine, kind: SegmentKind, width_um: i64, prev: Point, target: Point, de: int) -> Machine {
    let epoch: u64 = if kind is Travel { 0 } else { m.width_epoch };
    match m.open {
        None => m,
        Some(o) => {
            let continued = match o.2 {
                Some(c) => if c.0 == kind && c.2 == epoch && width_close_spec(c.1 as int, width_um as int)
                    && c.3.last() == prev {
                    Some((c.0, c.1, c.2, c.3.push(target), flow_add(c.4, de)))
                } else {
                    None
                },
                None => None,
            };
            let o2: OpenView = match continued {
                Some(c) => (o.0, o.1, Some(c)),
                None => (o.0, close_cur(o.1, o.2), Some((kind, width_um, epoch, seq![prev, target], flow_add(0, de)))),
            };
            Machine { open: Some(o2), ..m }
        },
    }
}

/// Push the segments `prev -> run[0] -> run[1] -> ...`; the E delta `de` goes with the last.
#[verifier::opaque]
pub open spec fn push_run(m: Machine, kind: SegmentKind, width_um: i64, prev: Point, run: Seq<Point>, de: int) -> Machine
    decreases run.len(),
{
    if run.len() == 0 {
        m
    } else {
        let before = push_run(m, kind, width_um, prev, run.drop_last(), 0);
        let from = if run.len() == 1 { prev } else { run[run.len() - 2] };
        push_segment(before, kind, width_um, from, run.last(), de)
    }
}

/// Consume a move's E word into the baseline; the extrusion delta.
pub open spec fn take_de(m: Machine, e: Option<i128>) -> (Machine, int) {
    match e {
        None => (m, 0),
        Some(e) => if m.abs_e {
            (Machine { e_prev: e, ..m }, e - m.e_prev)
        } else {
            let s = m.e_prev + e;
            let c: i128 = if s > E_LIMIT {
                E_LIMIT
            } else if s < -E_LIMIT {
                (-E_LIMIT) as i128
            } else {
                s as i128
            };
            (Machine { e_prev: c, ..m }, e as int)
        },
    }
}

/// `num / den` rounded, when `num + den / 2` fits in a `u128`.
pub open spec fn div_round_spec(num: int, den: int) -> Option<int> {
    if num + den / 2 > u128::MAX {
        None
    } else {
        Some((num + den / 2) / den)
    }
}

/// The width (µm) that spreads the extruded volume over the move at the layer height: E (10⁻⁹
/// mm) is volume when volumetric, else filament length over the cross-section π·d²/4 with
/// π = 355/113. Computed in `u128`; `None` on overflow.
pub open spec fn formula_width_spec(de: int, lh: int, len_nm: int, d: int, volumetric: bool) -> Option<int> {
    if volumetric {
        if de * 1_000_000_000 > u128::MAX || lh * len_nm > u128::MAX {
            None
        } else {
            div_round_spec(de * 1_000_000_000, lh * len_nm)
        }
    } else {
        if de * 355 > u128::MAX || de * 355 * d > u128::MAX || de * 355 * d * d > u128::MAX || lh * len_nm
            > u128::MAX || lh * len_nm * 452_000_000_000 > u128::MAX {
            None
        } else {
            div_round_spec(de * 355 * d * d, lh * len_nm * 452_000_000_000)
        }
    }
}

/// The width (µm) of an extruding move: the commented width, else the formula width when a layer
/// height is known and the move has a length, else the nominal width.
pub open spec fn width_for(m: Machine, de: int, len_nm: Option<int>) -> i64 {
    match m.width_um {
        Some(w) => w,
        None => match (m.layer_height_hint, len_nm) {
            (Some(lh), Some(len)) => if len > 0 {
                match formula_width_spec(de, lh as int, len, m.filament_d as int, m.volumetric) {
                    Some(w) => if 0 < w < 9_000_000_000_000_000_000 {
                        w as i64
                    } else {
                        NOMINAL_WIDTH_UM
                    },
                    None => NOMINAL_WIDTH_UM,
                }
            } else {
                NOMINAL_WIDTH_UM
            },
            _ => NOMINAL_WIDTH_UM,
        },
    }
}

/// The role of an extruding move: the labelled role, else `Perimeter`.
pub open spec fn move_role(m: Machine) -> RegionKind {
    if m.cur_role_known && m.cur_role is Some {
        m.cur_role.unwrap()
    } else {
        RegionKind::Perimeter
    }
}

/// The length (nm, rounded down) of a straight move between positions (10⁻⁹ mm), from whole
/// nanometre offsets; `None` when its square overflows a `u128`.
pub open spec fn move_len(x0: int, y0: int, x1: int, y1: int) -> Option<int> {
    let ux = (if x1 - x0 >= 0 { x1 - x0 } else { x0 - x1 }) / 1000;
    let uy = (if y1 - y0 >= 0 { y1 - y0 } else { y0 - y1 }) / 1000;
    if ux * ux > u128::MAX || uy * uy > u128::MAX || ux * ux + uy * uy > u128::MAX {
        None
    } else {
        Some(isqrt_spec(ux * ux + uy * uy))
    }
}

/// The length (nm, rounded down) of a segment between micron points; `None` on overflow.
pub open spec fn seg_len(a: Point, b: Point) -> Option<int> {
    if seg_len2_nm(a, b) > u128::MAX {
        None
    } else {
        Some(isqrt_spec(seg_len2_nm(a, b)))
    }
}

/// The summed segment lengths of `prev -> run[0] -> ...`; `None` on overflow.
pub open spec fn run_len(prev: Point, run: Seq<Point>) -> Option<int>
    decreases run.len(),
{
    if run.len() == 0 {
        Some(0)
    } else {
        let from = if run.len() == 1 { prev } else { run[run.len() - 2] };
        match (run_len(prev, run.drop_last()), seg_len(from, run.last())) {
            (Some(t), Some(l)) => if t + l > u128::MAX {
                None
            } else {
                Some(t + l)
            },
            _ => None,
        }
    }
}

/// The word values of a command line, scaled to millimetres' 10⁻⁹ (inches × 25.4): X, Y, Z, E,
/// D (unscaled), I, J, R; a later word overrides an earlier one.
pub struct FieldsView {
    pub x: Option<i128>,
    pub y: Option<i128>,
    pub z: Option<i128>,
    pub e: Option<i128>,
    pub d: Option<i128>,
    pub i: Option<i128>,
    pub j: Option<i128>,
    pub r: Option<i128>,
}

/// A word value in the current unit.
pub open spec fn scaled(v: int, inch: bool) -> int {
    if inch {
        sdiv_spec(v * 254, 10)
    } else {
        v
    }
}

/// The fields of a word list.
pub open spec fn fields_of(words: Seq<(u8, Option<int>)>, inch: bool) -> FieldsView
    decreases words.len(),
{
    if words.len() == 0 {
        FieldsView { x: None, y: None, z: None, e: None, d: None, i: None, j: None, r: None }
    } else {
        let f = fields_of(words.drop_last(), inch);
        let (l, vo) = words.last();
        match vo {
            None => f,
            Some(v) => {
                let sv = scaled(v, inch) as i128;
                if l == 88 {
                    FieldsView { x: Some(sv), ..f }
                } else if l == 89 {
                    FieldsView { y: Some(sv), ..f }
                } else if l == 90 {
                    FieldsView { z: Some(sv), ..f }
                } else if l == 69 {
                    FieldsView { e: Some(sv), ..f }
                } else if l == 73 {
                    FieldsView { i: Some(sv), ..f }
                } else if l == 74 {
                    FieldsView { j: Some(sv), ..f }
                } else if l == 82 {
                    FieldsView { r: Some(sv), ..f }
                } else if l == 68 {
                    FieldsView { d: Some(v as i128), ..f }
                } else {
                    f
                }
            },
        }
    }
}

/// The deposit of one straight segment with extrusion delta `de` (10⁻⁹ mm) and length `len`:
/// an extrusion when `de` exceeds [`EPS_E`] and the segment has length, nothing for an extrusion in
/// place, and a travel otherwise when a layer is open.
#[verifier::opaque]
pub open spec fn segment_step(m1: Machine, de: int, nz: int, prev: Point, target: Point, len: Option<int>) -> Machine {
    if de > EPS_E && prev != target {
        let m3 = open_layer(m1, nz);
        let m4 = width_noted(m3);
        push_segment(role_noted(m4), SegmentKind::Extrude(move_role(m4)), width_for(m3, de, len), prev, target, de)
    } else if de > EPS_E {
        Machine { zero_length_extrudes: bumped(m1.zero_length_extrudes), ..m1 }
    } else if prev != target && m1.open is Some {
        push_segment(m1, SegmentKind::Travel, 0, prev, target, 0)
    } else {
        m1
    }
}

/// The deposit of an arc's advancing points `run` from `prev`: an extrusion when `de` exceeds
/// [`EPS_E`], else a travel when a layer is open; nothing when no point advances.
#[verifier::opaque]
pub open spec fn run_step(m1: Machine, de: int, nz: int, prev: Point, run: Seq<Point>) -> Machine {
    if run.len() == 0 {
        if de > EPS_E {
            Machine { zero_length_extrudes: bumped(m1.zero_length_extrudes), ..m1 }
        } else {
            m1
        }
    } else if de > EPS_E {
        let m3 = open_layer(m1, nz);
        let m4 = width_noted(m3);
        push_run(role_noted(m4), SegmentKind::Extrude(move_role(m4)), width_for(m3, de, run_len(prev, run)), prev, run, de)
    } else if m1.open is Some {
        push_run(m1, SegmentKind::Travel, 0, prev, run, 0)
    } else {
        m1
    }
}

/// A straight move (G0/G1) to the words' position (absent axes keep theirs). Relative XYZ and
/// positions whose microns are not representable are skipped. With an E advance above
/// [`EPS_E`] and an XY displacement it extrudes (opening a layer if needed); an XY move without
/// extrusion is a travel when a layer is open.
#[verifier::opaque]
pub open spec fn do_move(m: Machine, f: FieldsView) -> Machine {
    let nx = match f.x {
        Some(v) => v,
        None => m.x,
    };
    let ny = match f.y {
        Some(v) => v,
        None => m.y,
    };
    let nz = match f.z {
        Some(v) => v,
        None => m.z,
    };
    if m.relative_xyz {
        Machine { skipped_g91_moves: bumped(m.skipped_g91_moves), ..m }
    } else {
        match (mm_to_um_spec(m.x as int), mm_to_um_spec(m.y as int), mm_to_um_spec(nx as int), mm_to_um_spec(
            ny as int,
        )) {
            (Some(px), Some(py), Some(tx), Some(ty)) => {
                let prev = Point { x: px, y: py };
                let target = Point { x: tx, y: ty };
                let (m1, de) = take_de(m, f.e);
                let m2 = segment_step(m1, de, nz as int, prev, target, move_len(m.x as int, m.y as int, nx as int, ny as int));
                Machine { x: nx, y: ny, z: nz, ..m2 }
            },
            _ => Machine { overflow_skips: bumped(m.overflow_skips), ..m },
        }
    }
}

/// The points of `pts` that differ from the point before them (the first compared with `last`).
pub open spec fn advancing(last: Point, pts: Seq<Point>) -> Seq<Point>
    decreases pts.len(),
{
    if pts.len() == 0 {
        Seq::empty()
    } else if pts[0] != last {
        seq![pts[0]] + advancing(pts[0], pts.skip(1))
    } else {
        advancing(last, pts.skip(1))
    }
}

/// `v` truncated toward zero to whole thousands' units (10⁻⁹ mm to nm).
pub open spec fn to_nm(v: int) -> int {
    sdiv_spec(v, 1000)
}

/// The arc centre (nm) of a G2/G3 move from `prev` to `target`: from the I/J offsets (a missing
/// one is 0) when either is given, else from R.
pub open spec fn arc_centre(f: FieldsView, prev: Point, target: Point, ccw: bool) -> Option<(int, int)> {
    if f.i is Some || f.j is Some {
        let io = match f.i {
            Some(v) => v as int,
            None => 0,
        };
        let jo = match f.j {
            Some(v) => v as int,
            None => 0,
        };
        Some((prev.x * 1000 + to_nm(io), prev.y * 1000 + to_nm(jo)))
    } else {
        match f.r {
            Some(r) => arc_centre_spec(prev, target, r as int, ccw),
            None => None,
        }
    }
}

/// The chord points of an arc move from `prev` to `target`: the flattened arc about its centre,
/// or the straight chord `[target]` without one.
#[verifier::opaque]
pub open spec fn arc_points(f: FieldsView, prev: Point, target: Point, ccw: bool) -> Seq<Point> {
    match arc_centre(f, prev, target, ccw) {
        Some((cx, cy)) => flatten_spec(prev, target, cx, cy, ccw),
        None => seq![target],
    }
}

/// An arc move (G2 clockwise, G3 counter-clockwise when `ccw`): like a straight move, but the
/// segments follow the flattened arc (the straight chord without a centre), without points that
/// do not advance.
#[verifier::opaque]
pub open spec fn do_arc(m: Machine, f: FieldsView, ccw: bool) -> Machine {
    let nx = match f.x {
        Some(v) => v,
        None => m.x,
    };
    let ny = match f.y {
        Some(v) => v,
        None => m.y,
    };
    let nz = match f.z {
        Some(v) => v,
        None => m.z,
    };
    if m.relative_xyz {
        Machine { skipped_g91_moves: bumped(m.skipped_g91_moves), ..m }
    } else {
        match (mm_to_um_spec(m.x as int), mm_to_um_spec(m.y as int), mm_to_um_spec(nx as int), mm_to_um_spec(
            ny as int,
        )) {
            (Some(px), Some(py), Some(tx), Some(ty)) => {
                let prev = Point { x: px, y: py };
                let target = Point { x: tx, y: ty };
                let (m1, de) = take_de(m, f.e);
                let counted = Machine { arcs_flattened: bumped(m1.arcs_flattened), ..m1 };
                let m2 = run_step(counted, de, nz as int, prev, advancing(prev, arc_points(f, prev, target, ccw)));
                Machine { x: nx, y: ny, z: nz, ..m2 }
            },
            _ => Machine { overflow_skips: bumped(m.overflow_skips), ..m },
        }
    }
}

/// A G, M or T word letter.
pub open spec fn is_command_letter(l: u8) -> bool {
    l == 71 || l == 77 || l == 84
}

/// The index of the first command word at or after `i` (the length when there is none).
pub open spec fn command_index(words: Seq<(u8, Option<int>)>, i: int) -> int
    decreases words.len() - i,
{
    if i >= words.len() {
        words.len() as int
    } else if is_command_letter(words[i].0) {
        i
    } else {
        command_index(words, i + 1)
    }
}

/// A code number: the word value in 10⁻⁹ rounded to an integer, half away from zero.
pub open spec fn code_number(v: int) -> int {
    if v >= 0 {
        (v + 500_000_000) / 1_000_000_000
    } else {
        -((-v + 500_000_000) / 1_000_000_000)
    }
}

/// One command line's words. The first G/M/T word names the command: G0/G1 move, G2/G3 arc,
/// G92 sets the position and E baseline, G20/G21 choose the unit, G90/G91 the XYZ mode, M82/M83
/// the E mode, M200 the volumetric mode; G17-G19, G10 and G11 change nothing; any other code is
/// recorded as skipped and changes nothing else.
#[verifier::opaque]
pub open spec fn command(m: Machine, words: Seq<(u8, Option<int>)>) -> Machine {
    let k = command_index(words, 0);
    if k >= words.len() {
        m
    } else {
        let cl = words[k].0;
        match words[k].1 {
            None => m,
            Some(cv) => {
                let n = code_number(cv);
                let f = fields_of(words, m.inch);
                if cl == 71 {
                    if n == 0 || n == 1 {
                        do_move(m, f)
                    } else if n == 2 {
                        do_arc(m, f, false)
                    } else if n == 3 {
                        do_arc(m, f, true)
                    } else if n == 92 {
                        Machine {
                            e_prev: match f.e {
                                Some(e) => e,
                                None => m.e_prev,
                            },
                            x: match f.x {
                                Some(v) => v,
                                None => m.x,
                            },
                            y: match f.y {
                                Some(v) => v,
                                None => m.y,
                            },
                            z: match f.z {
                                Some(v) => v,
                                None => m.z,
                            },
                            ..m
                        }
                    } else if n == 20 {
                        Machine { inch: true, ..m }
                    } else if n == 21 {
                        Machine { inch: false, ..m }
                    } else if n == 90 {
                        Machine { relative_xyz: false, ..m }
                    } else if n == 91 {
                        Machine { relative_xyz: true, ..m }
                    } else if n == 17 || n == 18 || n == 19 || n == 10 || n == 11 {
                        m
                    } else {
                        code_skipped(m, cl, n)
                    }
                } else if cl == 77 && n == 82 {
                    Machine { abs_e: true, ..m }
                } else if cl == 77 && n == 83 {
                    Machine { abs_e: false, ..m }
                } else if cl == 77 && n == 200 {
                    match f.d {
                        Some(d) => if d > 0 {
                            Machine { volumetric: true, filament_d: d, ..m }
                        } else {
                            Machine { volumetric: false, ..m }
                        },
                        None => m,
                    }
                } else {
                    code_skipped(m, cl, n)
                }
            },
        }
    }
}

/// `v[from..to]` without leading and trailing ASCII whitespace, as bounds.
pub open spec fn trimmed(v: Seq<u8>, from: int, to: int) -> (int, int) {
    let s = v.subrange(from, to);
    let a = ws_end(s, 0);
    (from + a, from + ws_start(s, to - from, a))
}

/// The number after the first `from` bytes of a comment (trimmed), in 10⁻⁹ mm.
pub open spec fn comment_number(com: Seq<u8>, from: int) -> Option<int> {
    let (a, b) = trimmed(com, from, com.len() as int);
    number_value(com.subrange(a, b))
}

/// A feature-role label from `from` on (trimmed): a recognised label sets its role, anything else
/// the `Perimeter` fallback.
pub open spec fn set_role(m: Machine, com: Seq<u8>, from: int) -> Machine {
    let (a, b) = trimmed(com, from, com.len() as int);
    match role_of(com.subrange(a, b)) {
        Some(rk) => Machine { cur_role: Some(rk), cur_role_known: true, cur_role_raw: Some(com.subrange(a, b)), ..m },
        None => Machine {
            cur_role: Some(RegionKind::Perimeter),
            cur_role_known: false,
            cur_role_raw: Some(com.subrange(a, b)),
            ..m
        },
    }
}

/// One comment (from its `;`): feature labels (`;TYPE:`, `; FEATURE:`), layer markers
/// (`;LAYER_CHANGE`, `; CHANGE_LAYER`, `;LAYER:`), heights (`;Z:`, `; Z_HEIGHT:`), layer heights
/// (`;HEIGHT:`, `; LAYER_HEIGHT:`, `;Layer height:`) and widths (`;WIDTH:`, `; LINE_WIDTH:`);
/// any other comment is ignored.
#[verifier::opaque]
pub open spec fn comment(m: Machine, com: Seq<u8>) -> Machine {
    if has_prefix(com, seq![59u8, 84, 89, 80, 69, 58]) {
        set_role(m, com, 6)
    } else if has_prefix(com, seq![59u8, 32, 70, 69, 65, 84, 85, 82, 69, 58]) {
        set_role(m, com, 10)
    } else if com == seq![59u8, 76, 65, 89, 69, 82, 95, 67, 72, 65, 78, 71, 69] || com == seq![
        59u8,
        32,
        67,
        72,
        65,
        78,
        71,
        69,
        95,
        76,
        65,
        89,
        69,
        82,
    ] || has_prefix(com, seq![59u8, 76, 65, 89, 69, 82, 58]) {
        Machine { force_new_layer: true, cur_role: None, cur_role_known: false, cur_role_raw: None, ..m }
    } else if has_prefix(com, seq![59u8, 90, 58]) || has_prefix(com, seq![59u8, 32, 90, 95, 72, 69, 73, 71, 72, 84, 58]) {
        let from = if has_prefix(com, seq![59u8, 90, 58]) { 3 } else { 11 };
        match comment_number(com, from) {
            Some(mm) => Machine { z: mm as i128, pending_layer_z_um: mm_to_um_spec(mm), ..m },
            None => m,
        }
    } else if has_prefix(com, seq![59u8, 72, 69, 73, 71, 72, 84, 58]) || has_prefix(
        com,
        seq![59u8, 32, 76, 65, 89, 69, 82, 95, 72, 69, 73, 71, 72, 84, 58],
    ) || has_prefix(com, seq![59u8, 76, 97, 121, 101, 114, 32, 104, 101, 105, 103, 104, 116, 58]) {
        let from = if has_prefix(com, seq![59u8, 72, 69, 73, 71, 72, 84, 58]) {
            8
        } else if has_prefix(com, seq![59u8, 32, 76, 65, 89, 69, 82, 95, 72, 69, 73, 71, 72, 84, 58]) {
            15
        } else {
            14
        };
        match comment_number(com, from) {
            Some(mm) => if mm > 0 {
                Machine { layer_height_hint: Some(mm as i128), ..m }
            } else {
                m
            },
            None => m,
        }
    } else if has_prefix(com, seq![59u8, 87, 73, 68, 84, 72, 58]) || has_prefix(
        com,
        seq![59u8, 32, 76, 73, 78, 69, 95, 87, 73, 68, 84, 72, 58],
    ) {
        let from = if has_prefix(com, seq![59u8, 87, 73, 68, 84, 72, 58]) { 7 } else { 13 };
        match comment_number(com, from) {
            Some(mm) => match mm_to_um_spec(mm) {
                Some(w) => if w > 0 && m.width_um != Some(w) {
                    Machine {
                        width_um: Some(w),
                        width_epoch: if m.width_epoch < u64::MAX { (m.width_epoch + 1) as u64 } else { m.width_epoch },
                        ..m
                    }
                } else {
                    m
                },
                None => m,
            },
            None => m,
        }
    } else {
        m
    }
}

/// The length of `raw` without trailing carriage returns.
pub open spec fn without_cr(raw: Seq<u8>, end: int) -> int
    decreases end,
{
    if end > 0 && raw[end - 1] == 13 {
        without_cr(raw, end - 1)
    } else {
        end
    }
}

/// The first index of `*` in `v[i..to]`, or `to`.
pub open spec fn checksum_at(v: Seq<u8>, i: int, to: int) -> int
    decreases to - i,
{
    if i >= to || v[i] == 42 {
        i
    } else {
        checksum_at(v, i + 1, to)
    }
}

/// One line (without its `\n`): trailing CRs dropped, the comment applied, then the command part
/// (trimmed, without a `*checksum`) lexed into words and applied.
#[verifier::opaque]
pub open spec fn line_step(m: Machine, raw: Seq<u8>) -> Machine {
    let line = raw.take(without_cr(raw, raw.len() as int));
    let (code, com) = split_from(line, 0, Seq::empty(), 0);
    let m1 = match com {
        Some(c) => comment(m, c),
        None => m,
    };
    let (a, b) = trimmed(code, 0, code.len() as int);
    if a == b {
        m1
    } else {
        let words = lex_from(code.subrange(a, checksum_at(code, a, b)), 0);
        if words.len() == 0 {
            m1
        } else {
            command(m1, words)
        }
    }
}

/// The lines of `b` from `start`, scanning at `i`, applied in order.
pub open spec fn scan_lines(m: Machine, b: Seq<u8>, start: int, i: int) -> Machine
    decreases b.len() - i,
{
    if i >= b.len() {
        line_step(m, b.subrange(start, b.len() as int))
    } else if b[i] == 10 {
        scan_lines(line_step(m, b.subrange(start, i)), b, i + 1, i + 1)
    } else {
        scan_lines(m, b, start, i + 1)
    }
}

/// The state after reading a G-code text (UTF-8 bytes): every `\n`-separated line applied in
/// order from [`machine_start`], then the open layer closed.
pub open spec fn gcode_final(b: Seq<u8>) -> Machine {
    flush(scan_lines(machine_start(), b, 0, 0))
}

/// The move plan of a G-code text.
pub open spec fn gcode_plan(b: Seq<u8>) -> Seq<(i64, Seq<ToolpathView>)> {
    gcode_final(b).program
}

} // verus!
