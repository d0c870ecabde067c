//! A robust G-code -> [`crate::ir::lo`] parser for real FDM slicer output. Never panics.
//!
//! Key rules:
//!
//!  - **Extrude vs. travel by E-delta, never the G0/G1 opcode** (RepRap/Marlin alias them). Absolute
//!    (M82, the default) vs. relative (M83) E is tracked; `G92 E` resets the baseline. The
//!    extrude/travel/zero-length decision is made on the rounded micron displacement.
//!  - **Layers are opened only by markers** (`;LAYER:` / `;LAYER_CHANGE` / `; CHANGE_LAYER`) or the
//!    first extrusion. The layer Z is the `;Z:` / `; Z_HEIGHT:` value when present, else the Z of the
//!    triggering extrusion, never a Z reached only by a travel hop.
//!  - **Trust boundary.** Geometry is trusted; feature role and width comments are untrusted
//!    re-inference, and every fallback is recorded in [`Diagnostics`].
//!  - A skipped move (overflow, G91) changes no state, including the E baseline.
//!  - **Arcs (G2/G3)** are flattened to chord polylines (I/J centre and R radius forms) within a
//!    ~20 µm deviation.
//!
//! Numbers are read exactly as decimals, in units of 10⁻⁹ mm, so the whole parser is integer
//! arithmetic; π in the filament cross-section is taken as 355/113.

use vstd::prelude::*;
use vstd::string::StringSliceAdditionalSpecFns;

use super::arc::{arc_center_from_r, flatten_arc, seg_len_nm};
use super::machine::{self, CurView, FieldsView, Machine, OpenView};
use crate::ir::lo::{self, SegmentKind, Toolpath};
use crate::ir::{Point, Polyline, RegionKind};

verus! {

// ------------------------------------------------------------------------------------------------
// Bytes.

/// Whether two byte strings are equal.
pub fn eq_bytes(v: &[u8], lit: &[u8]) -> (r: bool)
    ensures
        r == (v@ == lit@),
{
    if v.len() != lit.len() {
        return false;
    }
    let mut k: usize = 0;
    while k < v.len()
        invariant
            k <= v.len(),
            v@.len() == lit@.len(),
            forall|t: int| 0 <= t < k ==> v@[t] == lit@[t],
        decreases v.len() - k,
    {
        if v[k] != lit[k] {
            return false;
        }
        k += 1;
    }
    assert(v@ =~= lit@);
    true
}

/// `v` begins with `lit`.
pub open spec fn has_prefix(v: Seq<u8>, lit: Seq<u8>) -> bool {
    lit.len() <= v.len() && v.take(lit.len() as int) == lit
}

/// Whether `v` begins with `lit`.
pub fn starts_with(v: &[u8], lit: &[u8]) -> (r: bool)
    ensures
        r == has_prefix(v@, lit@),
{
    if lit.len() > v.len() {
        return false;
    }
    let mut k: usize = 0;
    while k < lit.len()
        invariant
            k <= lit.len(),
            lit@.len() <= v@.len(),
            forall|t: int| 0 <= t < k ==> v@[t] == lit@[t],
        decreases lit.len() - k,
    {
        if v[k] != lit[k] {
            assert(v@.take(lit@.len() as int)[k as int] != lit@[k as int]);
            return false;
        }
        k += 1;
    }
    assert(v@.take(lit@.len() as int) =~= lit@);
    true
}

/// The bytes `v[from..to]`, copied.
pub fn sub_bytes(v: &[u8], from: usize, to: usize) -> (r: Vec<u8>)
    requires
        from <= to <= v@.len(),
    ensures
        r@ == v@.subrange(from as int, to as int),
{
    let mut r: Vec<u8> = Vec::new();
    let mut k: usize = from;
    while k < to
        invariant
            from <= k <= to,
            to <= v@.len(),
            r@ == v@.subrange(from as int, k as int),
        decreases to - k,
    {
        r.push(v[k]);
        k += 1;
        assert(r@ =~= v@.subrange(from as int, k as int));
    }
    r
}

/// ASCII whitespace.
pub open spec fn is_ws(b: u8) -> bool {
    b == 32 || b == 9 || b == 10 || b == 11 || b == 12 || b == 13
}

/// The first index at or after `i` that is not whitespace.
pub open spec fn ws_end(v: Seq<u8>, i: int) -> int
    decreases v.len() - i,
{
    if i < v.len() && is_ws(v[i]) {
        ws_end(v, i + 1)
    } else {
        i
    }
}

/// One past the last index before `j` that is not whitespace.
pub open spec fn ws_start(v: Seq<u8>, j: int, lo: int) -> int
    decreases j - lo,
{
    if j > lo && is_ws(v[j - 1]) {
        ws_start(v, j - 1, lo)
    } else {
        j
    }
}

proof fn lemma_ws_end(v: Seq<u8>, i: int)
    requires
        0 <= i <= v.len(),
    ensures
        i <= ws_end(v, i) <= v.len(),
    decreases v.len() - i,
{
    if i < v.len() && is_ws(v[i]) {
        lemma_ws_end(v, i + 1);
    }
}

proof fn lemma_ws_start(v: Seq<u8>, j: int, lo: int)
    requires
        0 <= lo <= j <= v.len(),
    ensures
        lo <= ws_start(v, j, lo) <= j,
    decreases j - lo,
{
    if j > lo && is_ws(v[j - 1]) {
        lemma_ws_start(v, j - 1, lo);
    }
}

/// The bounds `(a, b)` of `v` without surrounding whitespace.
fn trim_bounds(v: &[u8], from: usize, to: usize) -> (r: (usize, usize))
    requires
        from <= to <= v@.len(),
    ensures
        r.0 == from + ws_end(v@.subrange(from as int, to as int), 0),
        r.1 == from + ws_start(
            v@.subrange(from as int, to as int),
            to - from,
            ws_end(v@.subrange(from as int, to as int), 0),
        ),
        from <= r.0 <= r.1 <= to,
{
    let ghost s = v@.subrange(from as int, to as int);
    let mut a = from;
    proof {
        lemma_ws_end(s, 0);
    }
    while a < to && (v[a] == 32 || v[a] == 9 || v[a] == 10 || v[a] == 11 || v[a] == 12 || v[a] == 13)
        invariant
            from <= a <= to,
            to <= v@.len(),
            s == v@.subrange(from as int, to as int),
            ws_end(s, a - from) == ws_end(s, 0),
        decreases to - a,
    {
        assert(s[a - from] == v@[a as int]);
        a += 1;
    }
    proof {
        if a < to {
            assert(s[a - from] == v@[a as int]);
        }
        lemma_ws_start(s, to - from, a - from);
    }
    let mut b = to;
    while b > a && (v[b - 1] == 32 || v[b - 1] == 9 || v[b - 1] == 10 || v[b - 1] == 11 || v[b - 1] == 12
        || v[b - 1] == 13)
        invariant
            from <= a <= b <= to,
            to <= v@.len(),
            s == v@.subrange(from as int, to as int),
            a - from == ws_end(s, 0),
            ws_start(s, b - from, a - from) == ws_start(s, to - from, a - from),
        decreases b - a,
    {
        assert(s[b - 1 - from] == v@[b - 1]);
        b -= 1;
    }
    proof {
        if b > a {
            assert(s[b - 1 - from] == v@[b - 1]);
        }
    }
    (a, b)
}

// ------------------------------------------------------------------------------------------------
// Code and comment.

/// Splitting a line: the code collected so far at depth `depth` of balanced `(...)` spans, then the
/// rest from index `i`. The comment is everything from the first `;` outside parentheses.
pub open spec fn split_from(raw: Seq<u8>, i: int, code: Seq<u8>, depth: int) -> (Seq<u8>, Option<Seq<u8>>)
    decreases raw.len() - i,
{
    if i >= raw.len() {
        (code, None)
    } else {
        let c = raw[i];
        if depth == 0 && c == 59 {
            (code, Some(raw.skip(i)))
        } else if c == 40 {
            split_from(raw, i + 1, code, depth + 1)
        } else if c == 41 {
            split_from(raw, i + 1, code, if depth > 0 { depth - 1 } else { 0 })
        } else if depth == 0 {
            split_from(raw, i + 1, code.push(c), depth)
        } else {
            split_from(raw, i + 1, code, depth)
        }
    }
}

/// Split a physical line into (code, comment). Removes balanced `(...)` spans; the comment is
/// everything from the first `;` outside parentheses (including the `;`). An unbalanced `(` makes
/// the rest of the line dropped from the code.
pub fn split_code_comment(raw: &[u8]) -> (r: (Vec<u8>, Option<Vec<u8>>))
    ensures
        r.0@ == split_from(raw@, 0, Seq::empty(), 0).0,
        match r.1 {
            Some(c) => split_from(raw@, 0, Seq::empty(), 0).1 == Some(c@),
            None => split_from(raw@, 0, Seq::empty(), 0).1 is None,
        },
{
    let mut code: Vec<u8> = Vec::new();
    let mut depth: usize = 0;
    let mut i: usize = 0;
    while i < raw.len()
        invariant
            i <= raw.len(),
            depth <= i,
            split_from(raw@, i as int, code@, depth as int) == split_from(raw@, 0, Seq::empty(), 0),
        decreases raw.len() - i,
    {
        let c = raw[i];
        if depth == 0 && c == 59 {
            let rest = sub_bytes(raw, i, raw.len());
            assert(rest@ =~= raw@.skip(i as int));
            return (code, Some(rest));
        }
        if c == 40 {
            depth += 1;
        } else if c == 41 {
            if depth > 0 {
                depth -= 1;
            }
        } else if depth == 0 {
            code.push(c);
        }
        i += 1;
    }
    (code, None)
}

/// Whether two widths are close enough to belong to the same toolpath: equal, or within 5% of the
/// larger plus 20 µm.
pub open spec fn width_close_spec(a: int, b: int) -> bool {
    a == b || 20 * (if a >= b { a - b } else { b - a }) <= (if a >= b { a } else { b }) + 400
}

/// Whether two widths are close enough to belong to the same toolpath (5% + 20 µm). Splits a
/// genuine width change without shattering a run of micro-varying formula widths.
pub fn width_close(a: i64, b: i64) -> (r: bool)
    ensures
        r == width_close_spec(a as int, b as int),
{
    if a == b {
        return true;
    }
    let (a, b) = (a as i128, b as i128);
    let d = if a >= b { a - b } else { b - a };
    let m = if a >= b { a } else { b };
    20 * d <= m + 400
}

/// The role a slicer feature-type value names, over its bytes: Cura, PrusaSlicer and
/// OrcaSlicer/Bambu vocabularies. `None` for unknown or non-structural features.
pub open spec fn role_of(v: Seq<u8>) -> Option<RegionKind> {
    if v == seq![87u8, 65u8, 76u8, 76u8, 45u8, 79u8, 85u8, 84u8, 69u8, 82u8] {
        Some(RegionKind::Perimeter)
    } else if v == seq![87u8, 65u8, 76u8, 76u8, 45u8, 73u8, 78u8, 78u8, 69u8, 82u8] {
        Some(RegionKind::Perimeter)
    } else if v == seq![83u8, 75u8, 73u8, 78u8] {
        Some(RegionKind::Skin)
    } else if v == seq![70u8, 73u8, 76u8, 76u8] {
        Some(RegionKind::Infill)
    } else if v == seq![83u8, 85u8, 80u8, 80u8, 79u8, 82u8, 84u8] {
        Some(RegionKind::Support)
    } else if v == seq![83u8, 85u8, 80u8, 80u8, 79u8, 82u8, 84u8, 45u8, 73u8, 78u8, 84u8, 69u8, 82u8, 70u8, 65u8, 67u8, 69u8] {
        Some(RegionKind::Support)
    } else if v == seq![80u8, 101u8, 114u8, 105u8, 109u8, 101u8, 116u8, 101u8, 114u8] {
        Some(RegionKind::Perimeter)
    } else if v == seq![69u8, 120u8, 116u8, 101u8, 114u8, 110u8, 97u8, 108u8, 32u8, 112u8, 101u8, 114u8, 105u8, 109u8, 101u8, 116u8, 101u8, 114u8] {
        Some(RegionKind::Perimeter)
    } else if v == seq![79u8, 118u8, 101u8, 114u8, 104u8, 97u8, 110u8, 103u8, 32u8, 112u8, 101u8, 114u8, 105u8, 109u8, 101u8, 116u8, 101u8, 114u8] {
        Some(RegionKind::Perimeter)
    } else if v == seq![73u8, 110u8, 116u8, 101u8, 114u8, 110u8, 97u8, 108u8, 32u8, 105u8, 110u8, 102u8, 105u8, 108u8, 108u8] {
        Some(RegionKind::Infill)
    } else if v == seq![71u8, 97u8, 112u8, 32u8, 102u8, 105u8, 108u8, 108u8] {
        Some(RegionKind::Infill)
    } else if v == seq![83u8, 111u8, 108u8, 105u8, 100u8, 32u8, 105u8, 110u8, 102u8, 105u8, 108u8, 108u8] {
        Some(RegionKind::Skin)
    } else if v == seq![84u8, 111u8, 112u8, 32u8, 115u8, 111u8, 108u8, 105u8, 100u8, 32u8, 105u8, 110u8, 102u8, 105u8, 108u8, 108u8] {
        Some(RegionKind::Skin)
    } else if v == seq![66u8, 114u8, 105u8, 100u8, 103u8, 101u8, 32u8, 105u8, 110u8, 102u8, 105u8, 108u8, 108u8] {
        Some(RegionKind::Skin)
    } else if v == seq![73u8, 114u8, 111u8, 110u8, 105u8, 110u8, 103u8] {
        Some(RegionKind::Skin)
    } else if v == seq![83u8, 117u8, 112u8, 112u8, 111u8, 114u8, 116u8, 32u8, 109u8, 97u8, 116u8, 101u8, 114u8, 105u8, 97u8, 108u8] {
        Some(RegionKind::Support)
    } else if v == seq![83u8, 117u8, 112u8, 112u8, 111u8, 114u8, 116u8, 32u8, 109u8, 97u8, 116u8, 101u8, 114u8, 105u8, 97u8, 108u8, 32u8, 105u8, 110u8, 116u8, 101u8, 114u8, 102u8, 97u8, 99u8, 101u8] {
        Some(RegionKind::Support)
    } else if v == seq![73u8, 110u8, 110u8, 101u8, 114u8, 32u8, 119u8, 97u8, 108u8, 108u8] {
        Some(RegionKind::Perimeter)
    } else if v == seq![79u8, 117u8, 116u8, 101u8, 114u8, 32u8, 119u8, 97u8, 108u8, 108u8] {
        Some(RegionKind::Perimeter)
    } else if v == seq![79u8, 118u8, 101u8, 114u8, 104u8, 97u8, 110u8, 103u8, 32u8, 119u8, 97u8, 108u8, 108u8] {
        Some(RegionKind::Perimeter)
    } else if v == seq![83u8, 112u8, 97u8, 114u8, 115u8, 101u8, 32u8, 105u8, 110u8, 102u8, 105u8, 108u8, 108u8] {
        Some(RegionKind::Infill)
    } else if v == seq![71u8, 97u8, 112u8, 32u8, 105u8, 110u8, 102u8, 105u8, 108u8, 108u8] {
        Some(RegionKind::Infill)
    } else if v == seq![73u8, 110u8, 116u8, 101u8, 114u8, 110u8, 97u8, 108u8, 32u8, 115u8, 111u8, 108u8, 105u8, 100u8, 32u8, 105u8, 110u8, 102u8, 105u8, 108u8, 108u8] {
        Some(RegionKind::Skin)
    } else if v == seq![84u8, 111u8, 112u8, 32u8, 115u8, 117u8, 114u8, 102u8, 97u8, 99u8, 101u8] {
        Some(RegionKind::Skin)
    } else if v == seq![66u8, 111u8, 116u8, 116u8, 111u8, 109u8, 32u8, 115u8, 117u8, 114u8, 102u8, 97u8, 99u8, 101u8] {
        Some(RegionKind::Skin)
    } else if v == seq![66u8, 114u8, 105u8, 100u8, 103u8, 101u8] {
        Some(RegionKind::Skin)
    } else if v == seq![73u8, 110u8, 116u8, 101u8, 114u8, 110u8, 97u8, 108u8, 32u8, 66u8, 114u8, 105u8, 100u8, 103u8, 101u8] {
        Some(RegionKind::Skin)
    } else if v == seq![83u8, 117u8, 112u8, 112u8, 111u8, 114u8, 116u8] {
        Some(RegionKind::Support)
    } else if v == seq![83u8, 117u8, 112u8, 112u8, 111u8, 114u8, 116u8, 32u8, 105u8, 110u8, 116u8, 101u8, 114u8, 102u8, 97u8, 99u8, 101u8] {
        Some(RegionKind::Support)
    } else if v == seq![83u8, 117u8, 112u8, 112u8, 111u8, 114u8, 116u8, 32u8, 116u8, 114u8, 97u8, 110u8, 115u8, 105u8, 116u8, 105u8, 111u8, 110u8] {
        Some(RegionKind::Support)
    } else {
        None
    }
}

/// Cura's feature labels (`;TYPE:`) and the role each names.
pub open spec fn cura_vocabulary() -> Map<Seq<u8>, RegionKind> {
    map![
        // WALL-OUTER
        seq![87u8, 65u8, 76u8, 76u8, 45u8, 79u8, 85u8, 84u8, 69u8, 82u8] => RegionKind::Perimeter,
        // WALL-INNER
        seq![87u8, 65u8, 76u8, 76u8, 45u8, 73u8, 78u8, 78u8, 69u8, 82u8] => RegionKind::Perimeter,
        // SKIN
        seq![83u8, 75u8, 73u8, 78u8] => RegionKind::Skin,
        // FILL
        seq![70u8, 73u8, 76u8, 76u8] => RegionKind::Infill,
        // SUPPORT
        seq![83u8, 85u8, 80u8, 80u8, 79u8, 82u8, 84u8] => RegionKind::Support,
        // SUPPORT-INTERFACE
        seq![83u8, 85u8, 80u8, 80u8, 79u8, 82u8, 84u8, 45u8, 73u8, 78u8, 84u8, 69u8, 82u8, 70u8, 65u8, 67u8, 69u8] => RegionKind::Support,
    ]
}

/// PrusaSlicer's feature labels (`;TYPE:`) and the role each names.
pub open spec fn prusa_vocabulary() -> Map<Seq<u8>, RegionKind> {
    map![
        // Perimeter
        seq![80u8, 101u8, 114u8, 105u8, 109u8, 101u8, 116u8, 101u8, 114u8] => RegionKind::Perimeter,
        // External perimeter
        seq![69u8, 120u8, 116u8, 101u8, 114u8, 110u8, 97u8, 108u8, 32u8, 112u8, 101u8, 114u8, 105u8, 109u8, 101u8, 116u8, 101u8, 114u8] => RegionKind::Perimeter,
        // Overhang perimeter
        seq![79u8, 118u8, 101u8, 114u8, 104u8, 97u8, 110u8, 103u8, 32u8, 112u8, 101u8, 114u8, 105u8, 109u8, 101u8, 116u8, 101u8, 114u8] => RegionKind::Perimeter,
        // Internal infill
        seq![73u8, 110u8, 116u8, 101u8, 114u8, 110u8, 97u8, 108u8, 32u8, 105u8, 110u8, 102u8, 105u8, 108u8, 108u8] => RegionKind::Infill,
        // Gap fill
        seq![71u8, 97u8, 112u8, 32u8, 102u8, 105u8, 108u8, 108u8] => RegionKind::Infill,
        // Solid infill
        seq![83u8, 111u8, 108u8, 105u8, 100u8, 32u8, 105u8, 110u8, 102u8, 105u8, 108u8, 108u8] => RegionKind::Skin,
        // Top solid infill
        seq![84u8, 111u8, 112u8, 32u8, 115u8, 111u8, 108u8, 105u8, 100u8, 32u8, 105u8, 110u8, 102u8, 105u8, 108u8, 108u8] => RegionKind::Skin,
        // Bridge infill
        seq![66u8, 114u8, 105u8, 100u8, 103u8, 101u8, 32u8, 105u8, 110u8, 102u8, 105u8, 108u8, 108u8] => RegionKind::Skin,
        // Ironing
        seq![73u8, 114u8, 111u8, 110u8, 105u8, 110u8, 103u8] => RegionKind::Skin,
        // Support material
        seq![83u8, 117u8, 112u8, 112u8, 111u8, 114u8, 116u8, 32u8, 109u8, 97u8, 116u8, 101u8, 114u8, 105u8, 97u8, 108u8] => RegionKind::Support,
        // Support material interface
        seq![83u8, 117u8, 112u8, 112u8, 111u8, 114u8, 116u8, 32u8, 109u8, 97u8, 116u8, 101u8, 114u8, 105u8, 97u8, 108u8, 32u8, 105u8, 110u8, 116u8, 101u8, 114u8, 102u8, 97u8, 99u8, 101u8] => RegionKind::Support,
    ]
}

/// OrcaSlicer/Bambu feature labels (`; FEATURE:`) and the role each names.
pub open spec fn orca_vocabulary() -> Map<Seq<u8>, RegionKind> {
    map![
        // Inner wall
        seq![73u8, 110u8, 110u8, 101u8, 114u8, 32u8, 119u8, 97u8, 108u8, 108u8] => RegionKind::Perimeter,
        // Outer wall
        seq![79u8, 117u8, 116u8, 101u8, 114u8, 32u8, 119u8, 97u8, 108u8, 108u8] => RegionKind::Perimeter,
        // Overhang wall
        seq![79u8, 118u8, 101u8, 114u8, 104u8, 97u8, 110u8, 103u8, 32u8, 119u8, 97u8, 108u8, 108u8] => RegionKind::Perimeter,
        // Sparse infill
        seq![83u8, 112u8, 97u8, 114u8, 115u8, 101u8, 32u8, 105u8, 110u8, 102u8, 105u8, 108u8, 108u8] => RegionKind::Infill,
        // Gap infill
        seq![71u8, 97u8, 112u8, 32u8, 105u8, 110u8, 102u8, 105u8, 108u8, 108u8] => RegionKind::Infill,
        // Internal solid infill
        seq![73u8, 110u8, 116u8, 101u8, 114u8, 110u8, 97u8, 108u8, 32u8, 115u8, 111u8, 108u8, 105u8, 100u8, 32u8, 105u8, 110u8, 102u8, 105u8, 108u8, 108u8] => RegionKind::Skin,
        // Top surface
        seq![84u8, 111u8, 112u8, 32u8, 115u8, 117u8, 114u8, 102u8, 97u8, 99u8, 101u8] => RegionKind::Skin,
        // Bottom surface
        seq![66u8, 111u8, 116u8, 116u8, 111u8, 109u8, 32u8, 115u8, 117u8, 114u8, 102u8, 97u8, 99u8, 101u8] => RegionKind::Skin,
        // Bridge
        seq![66u8, 114u8, 105u8, 100u8, 103u8, 101u8] => RegionKind::Skin,
        // Internal Bridge
        seq![73u8, 110u8, 116u8, 101u8, 114u8, 110u8, 97u8, 108u8, 32u8, 66u8, 114u8, 105u8, 100u8, 103u8, 101u8] => RegionKind::Skin,
        // Support
        seq![83u8, 117u8, 112u8, 112u8, 111u8, 114u8, 116u8] => RegionKind::Support,
        // Support interface
        seq![83u8, 117u8, 112u8, 112u8, 111u8, 114u8, 116u8, 32u8, 105u8, 110u8, 116u8, 101u8, 114u8, 102u8, 97u8, 99u8, 101u8] => RegionKind::Support,
        // Support transition
        seq![83u8, 117u8, 112u8, 112u8, 111u8, 114u8, 116u8, 32u8, 116u8, 114u8, 97u8, 110u8, 115u8, 105u8, 116u8, 105u8, 111u8, 110u8] => RegionKind::Support,
    ]
}

/// The role a label names in the slicer vocabulary that knows it, if any.
pub open spec fn vocabulary_role(v: Seq<u8>) -> Option<RegionKind> {
    if cura_vocabulary().contains_key(v) {
        Some(cura_vocabulary()[v])
    } else if prusa_vocabulary().contains_key(v) {
        Some(prusa_vocabulary()[v])
    } else if orca_vocabulary().contains_key(v) {
        Some(orca_vocabulary()[v])
    } else {
        None
    }
}

/// Every feature label is classified as the role its slicer means by it (Cura's `FILL` is
/// infill, its `SKIN` top/bottom skin, PrusaSlicer's `Solid infill` skin, OrcaSlicer's
/// `Sparse infill` infill, and so on), and a label no vocabulary knows is unclassified.
pub proof fn lemma_roles_follow_slicer_vocabularies(v: Seq<u8>)
    ensures
        role_of(v) == vocabulary_role(v),
{
}

/// Map a slicer feature-type value to a `RegionKind`; `None` = unknown/unmapped (the caller falls
/// back and records a diagnostic).
pub fn classify_role(v: &[u8]) -> (r: Option<RegionKind>)
    ensures
        r == role_of(v@),
{
    if eq_bytes(v, &[87, 65, 76, 76, 45, 79, 85, 84, 69, 82]) {
        return Some(RegionKind::Perimeter);
    }
    if eq_bytes(v, &[87, 65, 76, 76, 45, 73, 78, 78, 69, 82]) {
        return Some(RegionKind::Perimeter);
    }
    if eq_bytes(v, &[83, 75, 73, 78]) {
        return Some(RegionKind::Skin);
    }
    if eq_bytes(v, &[70, 73, 76, 76]) {
        return Some(RegionKind::Infill);
    }
    if eq_bytes(v, &[83, 85, 80, 80, 79, 82, 84]) {
        return Some(RegionKind::Support);
    }
    if eq_bytes(v, &[83, 85, 80, 80, 79, 82, 84, 45, 73, 78, 84, 69, 82, 70, 65, 67, 69]) {
        return Some(RegionKind::Support);
    }
    if eq_bytes(v, &[80, 101, 114, 105, 109, 101, 116, 101, 114]) {
        return Some(RegionKind::Perimeter);
    }
    if eq_bytes(v, &[69, 120, 116, 101, 114, 110, 97, 108, 32, 112, 101, 114, 105, 109, 101, 116, 101, 114]) {
        return Some(RegionKind::Perimeter);
    }
    if eq_bytes(v, &[79, 118, 101, 114, 104, 97, 110, 103, 32, 112, 101, 114, 105, 109, 101, 116, 101, 114]) {
        return Some(RegionKind::Perimeter);
    }
    if eq_bytes(v, &[73, 110, 116, 101, 114, 110, 97, 108, 32, 105, 110, 102, 105, 108, 108]) {
        return Some(RegionKind::Infill);
    }
    if eq_bytes(v, &[71, 97, 112, 32, 102, 105, 108, 108]) {
        return Some(RegionKind::Infill);
    }
    if eq_bytes(v, &[83, 111, 108, 105, 100, 32, 105, 110, 102, 105, 108, 108]) {
        return Some(RegionKind::Skin);
    }
    if eq_bytes(v, &[84, 111, 112, 32, 115, 111, 108, 105, 100, 32, 105, 110, 102, 105, 108, 108]) {
        return Some(RegionKind::Skin);
    }
    if eq_bytes(v, &[66, 114, 105, 100, 103, 101, 32, 105, 110, 102, 105, 108, 108]) {
        return Some(RegionKind::Skin);
    }
    if eq_bytes(v, &[73, 114, 111, 110, 105, 110, 103]) {
        return Some(RegionKind::Skin);
    }
    if eq_bytes(v, &[83, 117, 112, 112, 111, 114, 116, 32, 109, 97, 116, 101, 114, 105, 97, 108]) {
        return Some(RegionKind::Support);
    }
    if eq_bytes(v, &[83, 117, 112, 112, 111, 114, 116, 32, 109, 97, 116, 101, 114, 105, 97, 108, 32, 105, 110, 116, 101, 114, 102, 97, 99, 101]) {
        return Some(RegionKind::Support);
    }
    if eq_bytes(v, &[73, 110, 110, 101, 114, 32, 119, 97, 108, 108]) {
        return Some(RegionKind::Perimeter);
    }
    if eq_bytes(v, &[79, 117, 116, 101, 114, 32, 119, 97, 108, 108]) {
        return Some(RegionKind::Perimeter);
    }
    if eq_bytes(v, &[79, 118, 101, 114, 104, 97, 110, 103, 32, 119, 97, 108, 108]) {
        return Some(RegionKind::Perimeter);
    }
    if eq_bytes(v, &[83, 112, 97, 114, 115, 101, 32, 105, 110, 102, 105, 108, 108]) {
        return Some(RegionKind::Infill);
    }
    if eq_bytes(v, &[71, 97, 112, 32, 105, 110, 102, 105, 108, 108]) {
        return Some(RegionKind::Infill);
    }
    if eq_bytes(v, &[73, 110, 116, 101, 114, 110, 97, 108, 32, 115, 111, 108, 105, 100, 32, 105, 110, 102, 105, 108, 108]) {
        return Some(RegionKind::Skin);
    }
    if eq_bytes(v, &[84, 111, 112, 32, 115, 117, 114, 102, 97, 99, 101]) {
        return Some(RegionKind::Skin);
    }
    if eq_bytes(v, &[66, 111, 116, 116, 111, 109, 32, 115, 117, 114, 102, 97, 99, 101]) {
        return Some(RegionKind::Skin);
    }
    if eq_bytes(v, &[66, 114, 105, 100, 103, 101]) {
        return Some(RegionKind::Skin);
    }
    if eq_bytes(v, &[73, 110, 116, 101, 114, 110, 97, 108, 32, 66, 114, 105, 100, 103, 101]) {
        return Some(RegionKind::Skin);
    }
    if eq_bytes(v, &[83, 117, 112, 112, 111, 114, 116]) {
        return Some(RegionKind::Support);
    }
    if eq_bytes(v, &[83, 117, 112, 112, 111, 114, 116, 32, 105, 110, 116, 101, 114, 102, 97, 99, 101]) {
        return Some(RegionKind::Support);
    }
    if eq_bytes(v, &[83, 117, 112, 112, 111, 114, 116, 32, 116, 114, 97, 110, 115, 105, 116, 105, 111, 110]) {
        return Some(RegionKind::Support);
    }
    None
}


// ------------------------------------------------------------------------------------------------
// Numbers, read exactly in units of 10⁻⁹ mm.

/// An ASCII decimal digit.
pub open spec fn is_digit(b: u8) -> bool {
    48 <= b <= 57
}

/// The value of a string of decimal digits.
pub open spec fn digits_val(s: Seq<u8>) -> int
    decreases s.len(),
{
    if s.len() == 0 {
        0
    } else {
        digits_val(s.drop_last()) * 10 + (s.last() - 48)
    }
}

/// Ten to the `k`.
pub open spec fn pow10(k: nat) -> int
    decreases k,
{
    if k == 0 {
        1
    } else {
        10 * pow10((k - 1) as nat)
    }
}

/// The index of the first `.` at or after `i`, or the length.
pub open spec fn dot_pos(s: Seq<u8>, i: int) -> int
    decreases s.len() - i,
{
    if i >= s.len() || s[i] == 46 {
        i
    } else {
        dot_pos(s, i + 1)
    }
}

/// Integer parts at or above this many millimetres are read as this value: far beyond any
/// representable position, so such a coordinate is an overflow.
pub const BIG_MM: i128 = 100_000_000_000_000_000_000;

/// Every literal reads below this magnitude (10⁻⁹ mm).
pub const NUM_MAX: i128 = 100_000_000_001_000_000_000_000_000_000;

/// Fractional digits, in units of 10⁻⁹, rounded half up at the tenth digit.
pub open spec fn frac9(fp: Seq<u8>) -> int {
    if fp.len() >= 9 {
        digits_val(fp.take(9)) + if fp.len() > 9 && fp[9] >= 53 { 1int } else { 0int }
    } else {
        digits_val(fp) * pow10((9 - fp.len()) as nat)
    }
}

/// A literal's sign, integer digits and fractional digits: an optional sign, then everything up to
/// the first `.`, then everything after it.
pub open spec fn number_parts(s: Seq<u8>) -> (bool, Seq<u8>, Seq<u8>) {
    let signed = s.len() > 0 && (s[0] == 45 || s[0] == 43);
    let neg = s.len() > 0 && s[0] == 45;
    let body = if signed { s.skip(1) } else { s };
    let d = dot_pos(body, 0);
    (neg, body.take(d), if d < body.len() { body.skip(d + 1) } else { Seq::empty() })
}

/// A decimal literal `[+-]? digits [. digits]` (at least one digit, at most one `.`) in units of
/// 10⁻⁹, rounded half away from zero at the tenth fractional digit, with the integer part capped at
/// [`BIG_MM`]. `None` when the text is not such a literal.
pub open spec fn number_value(s: Seq<u8>) -> Option<int> {
    let (neg, ip, fp) = number_parts(s);
    if (forall|k: int| 0 <= k < ip.len() ==> is_digit(#[trigger] ip[k])) && (forall|k: int|
        0 <= k < fp.len() ==> is_digit(#[trigger] fp[k])) && ip.len() + fp.len() >= 1 {
        let ipv = if digits_val(ip) < BIG_MM { digits_val(ip) } else { BIG_MM as int };
        let mag = ipv * 1_000_000_000 + frac9(fp);
        Some(if neg { -mag } else { mag })
    } else {
        None
    }
}

proof fn lemma_pow10_le9(k: nat)
    requires
        k <= 9,
    ensures
        pow10(k) <= 1_000_000_000,
        pow10(k) >= 1,
{
    reveal_with_fuel(pow10, 10);
}

proof fn lemma_digits_push(s: Seq<u8>, b: u8)
    ensures
        digits_val(s.push(b)) == digits_val(s) * 10 + (b - 48),
{
    assert(s.push(b).drop_last() =~= s);
}

proof fn lemma_digits_bound(s: Seq<u8>)
    requires
        forall|k: int| 0 <= k < s.len() ==> is_digit(#[trigger] s[k]),
    ensures
        0 <= digits_val(s) < pow10(s.len()),
    decreases s.len(),
{
    if s.len() > 0 {
        lemma_digits_bound(s.drop_last());
        assert(pow10(s.len()) == 10 * pow10((s.len() - 1) as nat));
    }
}

proof fn lemma_dot_pos(s: Seq<u8>, i: int)
    requires
        0 <= i <= s.len(),
    ensures
        i <= dot_pos(s, i) <= s.len(),
        dot_pos(s, i) < s.len() ==> s[dot_pos(s, i)] == 46,
        forall|k: int| i <= k < dot_pos(s, i) ==> s[k] != 46,
    decreases s.len() - i,
{
    if i < s.len() && s[i] != 46 {
        lemma_dot_pos(s, i + 1);
    }
}

/// The integer part of a literal capped at [`BIG_MM`].
pub open spec fn capped(v: int) -> int {
    if v < BIG_MM { v } else { BIG_MM as int }
}

/// Read the integer digits of `s[start..to]` up to its first `.`: their capped value and where they
/// end, or `None` when one is not a digit.
fn int_digits(s: &[u8], start: usize, to: usize) -> (r: Option<(i128, usize)>)
    requires
        start <= to <= s@.len(),
    ensures
        ({
            let body = s@.subrange(start as int, to as int);
            let ip = body.take(dot_pos(body, 0));
            match r {
                Some((v, e)) => e == start + dot_pos(body, 0) && (forall|k: int| 0 <= k < ip.len() ==> is_digit(
                    #[trigger] ip[k],
                )) && v == capped(digits_val(ip)),
                None => !(forall|k: int| 0 <= k < ip.len() ==> is_digit(#[trigger] ip[k])),
            }
        }),
{
    let ghost body = s@.subrange(start as int, to as int);
    proof {
        lemma_dot_pos(body, 0);
    }
    let ghost d = dot_pos(body, 0);
    let mut i = start;
    let mut ip: i128 = 0;
    assert(body.take(0) =~= Seq::<u8>::empty());
    while i < to && s[i] != 46
        invariant
            start <= i <= to,
            to <= s@.len(),
            body == s@.subrange(start as int, to as int),
            d == dot_pos(body, 0),
            0 <= d <= body.len(),
            d < body.len() ==> body[d] == 46,
            forall|k: int| 0 <= k < d ==> body[k] != 46,
            i - start <= d,
            forall|k: int| 0 <= k < i - start ==> is_digit(#[trigger] body[k]),
            ip == capped(digits_val(body.take(i - start))),
            digits_val(body.take(i - start)) >= 0,
        decreases to - i,
    {
        let c = s[i];
        assert(body[i - start] == c);
        if !(48 <= c && c <= 57) {
            proof {
                assert(body.take(d)[i - start] == c);
            }
            return None;
        }
        proof {
            assert(body.take(i - start + 1) =~= body.take(i - start).push(c));
            lemma_digits_push(body.take(i - start), c);
        }
        let v = ip * 10 + (c - 48) as i128;
        ip = if v < BIG_MM { v } else { BIG_MM };
        i += 1;
    }
    proof {
        if i < to {
            assert(body[i - start] == 46);
        }
        assert(i - start == d);
        assert forall|k: int| 0 <= k < body.take(d).len() implies is_digit(#[trigger] body.take(d)[k]) by {
            assert(body.take(d)[k] == body[k]);
        }
    }
    Some((ip, i))
}

/// Read the fractional digits `s[from..to]`: their value in units of 10⁻⁹ rounded at the tenth
/// digit, or `None` when one is not a digit.
fn frac_digits(s: &[u8], from: usize, to: usize) -> (r: Option<i128>)
    requires
        from <= to <= s@.len(),
    ensures
        ({
            let fp = s@.subrange(from as int, to as int);
            match r {
                Some(v) => (forall|k: int| 0 <= k < fp.len() ==> is_digit(#[trigger] fp[k])) && v == frac9(fp),
                None => !(forall|k: int| 0 <= k < fp.len() ==> is_digit(#[trigger] fp[k])),
            }
        }),
{
    let ghost fp = s@.subrange(from as int, to as int);
    let mut i = from;
    let mut n: usize = 0;
    let mut v: i128 = 0;
    let mut round_up = false;
    proof {
        reveal_with_fuel(pow10, 10);
        assert(fp.take(0) =~= Seq::<u8>::empty());
    }
    while i < to
        invariant
            from <= i <= to,
            to <= s@.len(),
            fp == s@.subrange(from as int, to as int),
            n == i - from,
            forall|k: int| 0 <= k < n ==> is_digit(#[trigger] fp[k]),
            v == digits_val(fp.take(if n < 9 { n as int } else { 9 })),
            0 <= v < pow10(if n < 9 { n as nat } else { 9 }),
            pow10(if n < 9 { n as nat } else { 9 }) <= 1_000_000_000,
            round_up == (n > 9 && fp[9] >= 53),
        decreases to - i,
    {
        let c = s[i];
        assert(fp[n as int] == c);
        if !(48 <= c && c <= 57) {
            return None;
        }
        if n < 9 {
            proof {
                assert(fp.take(n + 1) =~= fp.take(n as int).push(c));
                lemma_digits_push(fp.take(n as int), c);
                assert(pow10((n + 1) as nat) == 10 * pow10(n as nat));
                lemma_pow10_le9((n + 1) as nat);
            }
            v = v * 10 + (c - 48) as i128;
        } else if n == 9 {
            round_up = c >= 53;
        }
        n += 1;
        i += 1;
    }
    let mut k = if n < 9 { n } else { 9 };
    let mut padded = v;
    proof {
        assert(pow10(0) == 1);
        assert(v * pow10(0) == v) by (nonlinear_arith)
            requires
                pow10(0) == 1,
        ;
    }
    while k < 9
        invariant
            (if n < 9 { n } else { 9 }) <= k <= 9,
            n < 9 ==> padded == v * pow10((k - n) as nat),
            n >= 9 ==> padded == v,
            0 <= padded < pow10(k as nat),
            pow10(k as nat) <= 1_000_000_000,
        decreases 9 - k,
    {
        proof {
            assert(pow10((k + 1) as nat) == 10 * pow10(k as nat));
            lemma_pow10_le9((k + 1) as nat);
            if n < 9 {
                assert(pow10((k + 1 - n) as nat) == 10 * pow10((k - n) as nat));
                let x = pow10((k - n) as nat);
                assert(padded * 10 == v * (10 * x)) by (nonlinear_arith)
                    requires
                        padded == v * x,
                ;
            }
        }
        padded = padded * 10;
        k += 1;
    }
    proof {
        reveal_with_fuel(pow10, 10);
        if n < 9 {
            assert(fp.take(n as int) =~= fp);
        }
    }
    Some(padded + if round_up { 1 } else { 0 })
}

/// Read a decimal literal from `s[from..to]`, in units of 10⁻⁹.
#[verifier::spinoff_prover]
pub fn parse_number(s: &[u8], from: usize, to: usize) -> (r: Option<i128>)
    requires
        from <= to <= s@.len(),
    ensures
        match r {
            Some(v) => number_value(s@.subrange(from as int, to as int)) == Some(v as int),
            None => number_value(s@.subrange(from as int, to as int)) is None,
        },
        r matches Some(v) ==> -NUM_MAX <= v <= NUM_MAX,
{
    let ghost t = s@.subrange(from as int, to as int);
    let mut i = from;
    let mut neg = false;
    if i < to && (s[i] == 45 || s[i] == 43) {
        neg = s[i] == 45;
        i += 1;
    }
    let start = i;
    let ghost body = s@.subrange(start as int, to as int);
    proof {
        assert(body =~= (if t.len() > 0 && (t[0] == 45 || t[0] == 43) { t.skip(1) } else { t }));
        lemma_dot_pos(body, 0);
    }
    let ghost d = dot_pos(body, 0);
    let ghost fps = if d < body.len() { body.skip(d + 1) } else { Seq::<u8>::empty() };
    assert(number_parts(t) == (neg, body.take(d), fps));
    let (ip, e) = match int_digits(s, start, to) {
        Some(x) => x,
        None => {
            return None;
        },
    };
    let n_int = e - start;
    let (fv, n_frac) = if e < to {
        assert(fps =~= s@.subrange(e + 1, to as int));
        match frac_digits(s, e + 1, to) {
            Some(v) => (v, to - (e + 1)),
            None => {
                return None;
            },
        }
    } else {
        assert(fps =~= s@.subrange(to as int, to as int));
        proof {
            reveal_with_fuel(pow10, 10);
            assert(fps.len() == 0);
            assert(digits_val(fps) == 0);
        }
        (0i128, 0usize)
    };
    if n_int + n_frac == 0 {
        return None;
    }
    proof {
        lemma_frac9_bound(fps);
        lemma_digits_bound(body.take(d));
    }
    let mag: i128 = ip * 1_000_000_000 + fv;
    Some(if neg { -mag } else { mag })
}

proof fn lemma_frac9_bound(fp: Seq<u8>)
    requires
        forall|k: int| 0 <= k < fp.len() ==> is_digit(#[trigger] fp[k]),
    ensures
        0 <= frac9(fp) <= 1_000_000_000,
{
    reveal_with_fuel(pow10, 10);
    if fp.len() >= 9 {
        assert forall|k: int| 0 <= k < fp.take(9).len() implies is_digit(#[trigger] fp.take(9)[k]) by {
            assert(fp.take(9)[k] == fp[k]);
        }
        lemma_digits_bound(fp.take(9));
    } else {
        lemma_digits_bound(fp);
        lemma_pow10_le9(fp.len());
        lemma_pow10_le9((9 - fp.len()) as nat);
        lemma_pow10_mul(fp.len(), (9 - fp.len()) as nat);
        assert(digits_val(fp) * pow10((9 - fp.len()) as nat) <= (pow10(fp.len()) - 1) * pow10((9 - fp.len()) as nat)) by (nonlinear_arith)
            requires
                0 <= digits_val(fp) < pow10(fp.len()),
                pow10((9 - fp.len()) as nat) >= 1,
        ;
        assert((pow10(fp.len()) - 1) * pow10((9 - fp.len()) as nat) <= pow10(fp.len()) * pow10((9 - fp.len()) as nat)) by (nonlinear_arith)
            requires
                pow10((9 - fp.len()) as nat) >= 1,
        ;
        assert(digits_val(fp) * pow10((9 - fp.len()) as nat) >= 0) by (nonlinear_arith)
            requires
                digits_val(fp) >= 0,
                pow10((9 - fp.len()) as nat) >= 1,
        ;
    }
}

proof fn lemma_pow10_mul(a: nat, b: nat)
    ensures
        pow10(a) * pow10(b) == pow10(a + b),
    decreases a,
{
    if a > 0 {
        lemma_pow10_mul((a - 1) as nat, b);
        assert(pow10(a) * pow10(b) == 10 * (pow10((a - 1) as nat) * pow10(b))) by (nonlinear_arith)
            requires
                pow10(a) == 10 * pow10((a - 1) as nat),
        ;
    }
}

/// A length in 10⁻⁹ mm to whole microns, rounded half away from zero.
pub open spec fn round_um(v: int) -> int {
    if v >= 0 {
        (v + 500_000) / 1_000_000
    } else {
        -((-v + 500_000) / 1_000_000)
    }
}

/// A length in 10⁻⁹ mm to whole microns, when that is below 9·10¹⁸ in magnitude.
pub open spec fn mm_to_um_spec(v: int) -> Option<i64> {
    let u = round_um(v);
    if -9_000_000_000_000_000_000 < u < 9_000_000_000_000_000_000 {
        Some(u as i64)
    } else {
        None
    }
}

/// A length in 10⁻⁹ mm to whole microns, guarding overflow.
pub fn mm_to_um(v: i128) -> (r: Option<i64>)
    requires
        -0x1000_0000_0000_0000_0000_0000_0000_0000 < v < 0x1000_0000_0000_0000_0000_0000_0000_0000,
    ensures
        r == mm_to_um_spec(v as int),
{
    let u: i128 = if v >= 0 { (v + 500_000) / 1_000_000 } else { -((-v + 500_000) / 1_000_000) };
    if -9_000_000_000_000_000_000 < u && u < 9_000_000_000_000_000_000 {
        Some(u as i64)
    } else {
        None
    }
}

// ------------------------------------------------------------------------------------------------
// Words.

/// An ASCII letter.
pub open spec fn is_alpha(b: u8) -> bool {
    (65 <= b <= 90) || (97 <= b <= 122)
}

/// An ASCII letter in upper case.
pub open spec fn upper(b: u8) -> u8 {
    if 97 <= b <= 122 {
        (b - 32) as u8
    } else {
        b
    }
}

/// A character that can belong to a numeric literal.
pub open spec fn is_num_char(b: u8) -> bool {
    is_digit(b) || b == 46 || b == 45 || b == 43
}

/// The end of the run of numeric characters starting at `j`.
pub open spec fn num_end(s: Seq<u8>, j: int) -> int
    decreases s.len() - j,
{
    if j < s.len() && is_num_char(s[j]) {
        num_end(s, j + 1)
    } else {
        j
    }
}

/// The words of `s[i..]`: each letter (upper-cased) with the literal that follows it (`None` when
/// that is not a number). Other characters are skipped.
pub open spec fn lex_from(s: Seq<u8>, i: int) -> Seq<(u8, Option<int>)>
    decreases s.len() - i,
{
    if i >= s.len() {
        Seq::empty()
    } else if is_alpha(s[i]) {
        let j = num_end(s, i + 1);
        proof {
            lemma_num_end(s, i + 1);
        }
        seq![(upper(s[i]), number_value(s.subrange(i + 1, j)))] + lex_from(s, j)
    } else {
        lex_from(s, i + 1)
    }
}

/// A word whose value, if any, is within the literal range.
pub open spec fn word_ok(w: (u8, Option<i128>)) -> bool {
    w.1 matches Some(v) ==> -NUM_MAX <= v <= NUM_MAX
}

/// A word as plain values.
pub open spec fn word_view(w: (u8, Option<i128>)) -> (u8, Option<int>) {
    (w.0, match w.1 {
        Some(v) => Some(v as int),
        None => None,
    })
}

pub proof fn lemma_num_end(s: Seq<u8>, j: int)
    requires
        j <= s.len(),
    ensures
        j <= num_end(s, j) <= s.len(),
    decreases s.len() - j,
{
    if j < s.len() && is_num_char(s[j]) {
        lemma_num_end(s, j + 1);
    }
}

/// Tokenize G-code words: a letter followed by a numeric literal. Non-word characters are skipped;
/// an unparseable number yields `None` (the caller drops such fields).
pub fn lex_words(code: &[u8]) -> (words: Vec<(u8, Option<i128>)>)
    ensures
        words@.map_values(|w: (u8, Option<i128>)| word_view(w)) == lex_from(code@, 0),
        forall|k: int| 0 <= k < words@.len() ==> word_ok(#[trigger] words@[k]),
{
    let mut words: Vec<(u8, Option<i128>)> = Vec::new();
    let mut i: usize = 0;
    while i < code.len()
        invariant
            i <= code.len(),
            words@.map_values(|w: (u8, Option<i128>)| word_view(w)) + lex_from(code@, i as int) == lex_from(code@, 0),
            forall|k: int| 0 <= k < words@.len() ==> word_ok(#[trigger] words@[k]),
        decreases code.len() - i,
    {
        let c = code[i];
        if (65 <= c && c <= 90) || (97 <= c && c <= 122) {
            let letter: u8 = if 97 <= c && c <= 122 { c - 32 } else { c };
            let mut j = i + 1;
            proof {
                lemma_num_end(code@, i + 1);
            }
            while j < code.len() && ((48 <= code[j] && code[j] <= 57) || code[j] == 46 || code[j] == 45 || code[j] == 43)
                invariant
                    i < j <= code.len(),
                    num_end(code@, j as int) == num_end(code@, i + 1),
                decreases code.len() - j,
            {
                j += 1;
            }
            let v = parse_number(code, i + 1, j);
            let ghost before = words@.map_values(|w: (u8, Option<i128>)| word_view(w));
            words.push((letter, v));
            proof {
                assert(words@.map_values(|w: (u8, Option<i128>)| word_view(w)) =~= before.push(
                    (upper(c), number_value(code@.subrange(i + 1, j as int))),
                ));
                assert(before.push((upper(c), number_value(code@.subrange(i + 1, j as int)))) + lex_from(
                    code@,
                    j as int,
                ) =~= before + lex_from(code@, i as int));
            }
            i = j;
        } else {
            i += 1;
        }
    }
    assert(words@.map_values(|w: (u8, Option<i128>)| word_view(w)) + lex_from(code@, i as int) =~= words@.map_values(
        |w: (u8, Option<i128>)| word_view(w),
    ));
    words
}

/// The decimal digits of `n`.
pub open spec fn dec_digits(n: nat) -> Seq<u8>
    decreases n,
{
    if n < 10 {
        seq![(48 + n) as u8]
    } else {
        dec_digits(n / 10).push((48 + n % 10) as u8)
    }
}

/// Append the decimal digits of `n`.
fn push_dec(out: &mut Vec<u8>, n: u128)
    ensures
        final(out)@ == old(out)@ + dec_digits(n as nat),
    decreases n,
{
    if n < 10 {
        out.push((48 + n) as u8);
        assert(final(out)@ =~= old(out)@ + dec_digits(n as nat));
    } else {
        push_dec(out, n / 10);
        out.push((48 + n % 10) as u8);
        assert(final(out)@ =~= old(out)@ + dec_digits(n as nat));
    }
}

/// Floor square root.
pub fn isqrt(n: u128) -> (r: u128)
    ensures
        r * r <= n < (r + 1) * (r + 1),
        r < 0x1_0000_0000_0000_0000,
{
    let mut lo: u128 = 0;
    let mut hi: u128 = 0x1_0000_0000_0000_0000;
    proof {
        assert(hi * hi == 0x1_0000_0000_0000_0000_0000_0000_0000_0000) by (nonlinear_arith)
            requires
                hi == 0x1_0000_0000_0000_0000u128,
        ;
    }
    while hi - lo > 1
        invariant
            lo < hi <= 0x1_0000_0000_0000_0000,
            lo * lo <= n,
            n < hi * hi,
        decreases hi - lo,
    {
        let mid = lo + (hi - lo) / 2;
        assert(mid * mid <= 0xFFFF_FFFF_FFFF_FFFE_0000_0000_0000_0001) by (nonlinear_arith)
            requires
                mid <= 0xFFFF_FFFF_FFFF_FFFF,
        ;
        if mid * mid <= n {
            lo = mid;
        } else {
            hi = mid;
        }
    }
    assert(hi == lo + 1);
    lo
}


// ------------------------------------------------------------------------------------------------
// Structure of a parsed program.

/// No two consecutive points are equal.
pub open spec fn distinct_steps(pts: Seq<Point>) -> bool {
    forall|j: int, k: int| 0 <= j && k == j + 1 && k < pts.len() ==> #[trigger] pts[j] != #[trigger] pts[k]
}

/// A toolpath as the parser emits it: at least two points, no zero-length segment, a positive
/// width when extruding and zero width for travel.
pub open spec fn toolpath_ok(t: Toolpath) -> bool {
    &&& t.path.points@.len() >= 2
    &&& distinct_steps(t.path.points@)
    &&& if t.kind is Extrude {
        t.width_um > 0
    } else {
        t.width_um == 0
    }
}

/// Every toolpath of the sequence is well formed.
pub open spec fn toolpaths_ok(tps: Seq<Toolpath>) -> bool {
    forall|k: int| 0 <= k < tps.len() ==> toolpath_ok(#[trigger] tps[k])
}

/// Every layer is non-empty and holds well-formed toolpaths.
pub open spec fn layers_ok(ls: Seq<lo::Layer>) -> bool {
    forall|i: int| 0 <= i < ls.len() ==> (#[trigger] ls[i]).toolpaths@.len() > 0 && toolpaths_ok(ls[i].toolpaths@)
}

/// Number of toolpaths over a sequence of layers.
pub open spec fn count_toolpaths(ls: Seq<lo::Layer>) -> nat
    decreases ls.len(),
{
    if ls.len() == 0 {
        0
    } else {
        count_toolpaths(ls.drop_last()) + ls.last().toolpaths@.len()
    }
}

/// Number of occurrences of byte `b`.
pub open spec fn count_byte(s: Seq<u8>, b: u8) -> nat
    decreases s.len(),
{
    if s.len() == 0 {
        0
    } else {
        count_byte(s.drop_last(), b) + if s.last() == b { 1nat } else { 0nat }
    }
}

proof fn lemma_count_byte_le(s: Seq<u8>, b: u8)
    ensures
        count_byte(s, b) <= s.len(),
    decreases s.len(),
{
    if s.len() > 0 {
        lemma_count_byte_le(s.drop_last(), b);
    }
}

// ------------------------------------------------------------------------------------------------
// Diagnostics and the parse result.

/// Side-channel diagnostics from a parse: what was recovered, guessed, or dropped. This is where the
/// untrusted-inference gaps are surfaced so a verifier can distinguish trusted geometry from guesses.
#[derive(Clone, Debug, Default, PartialEq, Eq)]
pub struct Diagnostics {
    pub lines: usize,
    pub layers: usize,
    pub extruding_toolpaths: usize,
    pub travel_toolpaths: usize,
    /// Distinct `;TYPE:` / `; FEATURE:` values (and `<no ;TYPE:>`) that fell back to `Perimeter`,
    /// in order of first occurrence.
    pub unknown_roles: Vec<String>,
    /// Count of extruding moves that used a guessed (fallback) role.
    pub fallback_role_moves: usize,
    /// Extruding moves whose width was estimated (formula) or nominal, not read from a width comment.
    pub estimated_width_moves: usize,
    /// Extruding moves with no XY displacement (prime / unretract): state advanced, no toolpath.
    pub zero_length_extrudes: usize,
    /// G2/G3 arcs flattened to chord polylines.
    pub arcs_flattened: usize,
    pub skipped_g91_moves: usize,
    pub overflow_skips: usize,
    /// Unknown G/M/T codes encountered (e.g. `M104`, `G28`, `T0`), deduplicated, in order of first
    /// occurrence.
    pub skipped_codes: Vec<String>,
}

/// The diagnostic counters that the reading state keeps.
pub open spec fn diag_counts(d: Diagnostics, m: Machine) -> bool {
    &&& d.fallback_role_moves == m.fallback_role_moves
    &&& d.estimated_width_moves == m.estimated_width_moves
    &&& d.zero_length_extrudes == m.zero_length_extrudes
    &&& d.arcs_flattened == m.arcs_flattened
    &&& d.skipped_g91_moves == m.skipped_g91_moves
    &&& d.overflow_skips == m.overflow_skips
}

/// The result of parsing G-code: the recovered program plus diagnostics.
#[derive(Clone, Debug)]
pub struct ParseReport {
    pub program: lo::Program,
    pub diagnostics: Diagnostics,
}

/// The text `String::from_utf8_lossy` makes of a byte string: a function of the bytes alone.
pub uninterp spec fn lossy_text(bytes: Seq<u8>) -> Seq<char>;

/// The text of a byte string, invalid UTF-8 replaced by U+FFFD.
///
/// Calls `String::from_utf8_lossy`. Claimed: the result is [`lossy_text`] of the bytes, and valid
/// UTF-8 comes back as the text it encodes; what the replacement gives for invalid bytes is not
/// stated here.
#[verifier::external_body]
fn text_of(bytes: &[u8]) -> (s: String)
    ensures
        s@ == lossy_text(bytes@),
        vstd::utf8::valid_utf8(bytes@) ==> s@ == vstd::utf8::decode_utf8(bytes@),
{
    String::from_utf8_lossy(bytes).into_owned()
}

/// The text recorded for a label: what it encodes when it is valid UTF-8.
pub open spec fn label_text(b: Seq<u8>) -> Seq<char> {
    if vstd::utf8::valid_utf8(b) {
        vstd::utf8::decode_utf8(b)
    } else {
        lossy_text(b)
    }
}

/// The texts of a list of strings.
pub open spec fn texts(v: Seq<String>) -> Seq<Seq<char>> {
    v.map_values(|s: String| s@)
}

/// The diagnostics' unknown roles and skipped codes are the texts the reading state recorded, in
/// the same order.
pub open spec fn texts_recorded(d: Diagnostics, m: Machine) -> bool {
    &&& texts(d.unknown_roles@) == m.unknown_roles
    &&& texts(d.skipped_codes@) == m.skipped_codes
}

/// Add `s` at the end of `v` unless a string with the same text is already there.
fn note_text(v: &mut Vec<String>, s: String)
    ensures
        texts(final(v)@) == machine::noted(texts(old(v)@), s@),
{
    let mut k: usize = 0;
    while k < v.len()
        invariant
            k <= v.len(),
            forall|i: int| 0 <= i < k ==> (#[trigger] v@[i])@ != s@,
        decreases v.len() - k,
    {
        if v[k] == s {
            proof {
                assert(texts(v@)[k as int] == s@);
            }
            return;
        }
        k += 1;
    }
    proof {
        assert(!texts(v@).contains(s@)) by {
            if texts(v@).contains(s@) {
                let i = choose|i: int| 0 <= i < texts(v@).len() && texts(v@)[i] == s@;
                assert(v@[i]@ == s@);
            }
        }
    }
    let ghost before = v@;
    v.push(s);
    assert(texts(v@) =~= texts(before).push(s@));
}

/// Diagnostics with every count zero and both sets empty.
pub fn empty_diagnostics() -> (d: Diagnostics)
    ensures
        d.lines == 0,
        d.layers == 0,
        d.extruding_toolpaths == 0,
        d.travel_toolpaths == 0,
        d.unknown_roles@.len() == 0,
        d.fallback_role_moves == 0,
        d.estimated_width_moves == 0,
        d.zero_length_extrudes == 0,
        d.arcs_flattened == 0,
        d.skipped_g91_moves == 0,
        d.overflow_skips == 0,
        d.skipped_codes@.len() == 0,
{
    Diagnostics {
        lines: 0,
        layers: 0,
        extruding_toolpaths: 0,
        travel_toolpaths: 0,
        unknown_roles: Vec::new(),
        fallback_role_moves: 0,
        estimated_width_moves: 0,
        zero_length_extrudes: 0,
        arcs_flattened: 0,
        skipped_g91_moves: 0,
        overflow_skips: 0,
        skipped_codes: Vec::new(),
    }
}

fn bump(c: usize) -> (r: usize)
    ensures
        c < usize::MAX ==> r == c + 1,
        r == machine::bumped(c),
{
    if c < usize::MAX {
        c + 1
    } else {
        c
    }
}

// ------------------------------------------------------------------------------------------------
// The parser.

/// Width (µm) of an extruding move with neither a width comment nor a usable formula.
pub const NOMINAL_WIDTH_UM: i64 = 400;

/// Every modal position and field value (10⁻⁹ mm) stays below this magnitude.
pub const POS_LIMIT: i128 = 10_000_000_000_000_000_000_000_000_000_000;

/// The modal E baseline (10⁻⁹ mm) is held within this magnitude.
pub const E_LIMIT: i128 = 1_000_000_000_000_000_000_000_000_000_000_000_000;

/// Default filament diameter, 1.75 mm, in 10⁻⁹ mm.
pub const DEFAULT_FILAMENT_D: i128 = 1_750_000_000;

/// An E advance above this (10⁻⁹ mm, i.e. 10⁻⁶ mm) extrudes.
pub const EPS_E: i128 = 1000;

/// Within the modal range.
pub open spec fn in_pos(v: int) -> bool {
    -POS_LIMIT <= v <= POS_LIMIT
}

struct Fields {
    x: Option<i128>,
    y: Option<i128>,
    z: Option<i128>,
    e: Option<i128>,
    d: Option<i128>,
    i: Option<i128>,
    j: Option<i128>,
    r: Option<i128>,
}

spec fn opt_in_pos(o: Option<i128>) -> bool {
    o matches Some(v) ==> in_pos(v as int)
}

spec fn fields_ok(f: Fields) -> bool {
    &&& opt_in_pos(f.x)
    &&& opt_in_pos(f.y)
    &&& opt_in_pos(f.z)
    &&& opt_in_pos(f.e)
    &&& opt_in_pos(f.d)
    &&& opt_in_pos(f.i)
    &&& opt_in_pos(f.j)
    &&& opt_in_pos(f.r)
}

struct CurTp {
    kind: SegmentKind,
    width_um: i64,
    epoch: u64,
    points: Vec<Point>,
    /// The E commanded along the toolpath (10⁻⁹ mm).
    flow: i128,
}

spec fn cur_ok(c: CurTp) -> bool {
    &&& c.points@.len() >= 2
    &&& -machine::FLOW_LIMIT <= c.flow <= machine::FLOW_LIMIT
    &&& distinct_steps(c.points@)
    &&& if c.kind is Extrude {
        c.width_um > 0
    } else {
        c.width_um == 0
    }
}

struct OpenLayer {
    z_um: i64,
    toolpaths: Vec<Toolpath>,
    cur: Option<CurTp>,
}

spec fn open_ok(o: OpenLayer) -> bool {
    &&& toolpaths_ok(o.toolpaths@)
    &&& o.cur matches Some(c) ==> cur_ok(c)
}

struct Parser {
    inch: bool,
    abs_e: bool,
    relative_xyz: bool,
    volumetric: bool,
    filament_d: i128,
    x: i128,
    y: i128,
    z: i128,
    e_prev: i128,
    layer_height_hint: Option<i128>,
    pending_layer_z_um: Option<i64>,
    cur_role: Option<RegionKind>,
    cur_role_known: bool,
    cur_role_raw: Option<Vec<u8>>,
    width_um: Option<i64>,
    width_epoch: u64,
    force_new_layer: bool,
    open: Option<OpenLayer>,
    program: lo::Program,
    diag: Diagnostics,
}

/// The toolpath being extended, as plain values.
spec fn cur_view(c: CurTp) -> CurView {
    (c.kind, c.width_um, c.epoch, c.points@, c.flow as int)
}

/// The open layer, as plain values.
spec fn open_view(o: OpenLayer) -> OpenView {
    (o.z_um, o.toolpaths@.map_values(|t: Toolpath| t@), match o.cur {
        Some(c) => Some(cur_view(c)),
        None => None,
    })
}

/// A move's words, as plain values.
spec fn fields_view(f: Fields) -> FieldsView {
    FieldsView { x: f.x, y: f.y, z: f.z, e: f.e, d: f.d, i: f.i, j: f.j, r: f.r }
}

/// A length that may have overflowed, as an integer.
spec fn opt_len(o: Option<u128>) -> Option<int> {
    match o {
        Some(v) => Some(v as int),
        None => None,
    }
}

fn finish_tp(c: CurTp) -> (t: Toolpath)
    requires
        cur_ok(c),
    ensures
        toolpath_ok(t),
        t.kind == c.kind,
        t@ == machine::finish_cur(cur_view(c)),
{
    let flow_e = match c.kind {
        SegmentKind::Travel => None,
        SegmentKind::Extrude(_) => Some(flow_nm(c.flow)),
    };
    Toolpath { kind: c.kind, path: Polyline::new(c.points), width_um: c.width_um, flow_e }
}

/// A toolpath's commanded E after one more move's delta, saturating.
fn flow_add(acc: i128, de: i128) -> (r: i128)
    requires
        -machine::FLOW_LIMIT <= acc <= machine::FLOW_LIMIT,
        -2 * E_LIMIT <= de <= 2 * E_LIMIT,
    ensures
        r as int == machine::flow_add(acc as int, de as int),
        -machine::FLOW_LIMIT <= r <= machine::FLOW_LIMIT,
{
    let s = acc + de;
    if s > machine::FLOW_LIMIT {
        machine::FLOW_LIMIT
    } else if s < -machine::FLOW_LIMIT {
        -machine::FLOW_LIMIT
    } else {
        s
    }
}

/// Commanded E as nanometres, rounded half away from zero.
fn flow_nm(acc: i128) -> (r: i64)
    requires
        -machine::FLOW_LIMIT <= acc <= machine::FLOW_LIMIT,
    ensures
        r as int == machine::flow_nm(acc as int),
{
    if acc >= 0 {
        ((acc + 500) / 1000) as i64
    } else {
        -(((-acc + 500) / 1000) as i64)
    }
}

/// Scale a literal by the unit: inches (×25.4) or millimetres.
fn scale(v: i128, inch: bool) -> (r: i128)
    requires
        -NUM_MAX <= v <= NUM_MAX,
    ensures
        in_pos(r as int),
        r as int == machine::scaled(v as int, inch),
{
    if inch {
        let t = v * 254;
        if t >= 0 {
            t / 10
        } else {
            -((-t) / 10)
        }
    } else {
        v
    }
}

/// Round a value in 10⁻⁹ to the nearest integer, half away from zero.
fn round_units(v: i128) -> (r: i128)
    requires
        -NUM_MAX <= v <= NUM_MAX,
    ensures
        -200_000_000_000_000_000_000 <= r <= 200_000_000_000_000_000_000,
        r as int == machine::code_number(v as int),
{
    if v >= 0 {
        (v + 500_000_000) / 1_000_000_000
    } else {
        -((-v + 500_000_000) / 1_000_000_000)
    }
}

/// The length (nm) of the straight move between two positions (10⁻⁹ mm), when it fits.
fn move_len_nm(x0: i128, y0: i128, x1: i128, y1: i128) -> (r: Option<u128>)
    requires
        in_pos(x0 as int),
        in_pos(y0 as int),
        in_pos(x1 as int),
        in_pos(y1 as int),
    ensures
        opt_len(r) == machine::move_len(x0 as int, y0 as int, x1 as int, y1 as int),
{
    let dx = x1 - x0;
    let dy = y1 - y0;
    let ux: u128 = (if dx >= 0 { dx } else { -dx }) as u128 / 1000;
    let uy: u128 = (if dy >= 0 { dy } else { -dy }) as u128 / 1000;
    let sx = ux.checked_mul(ux)?;
    let sy = uy.checked_mul(uy)?;
    let s = sx.checked_add(sy)?;
    let r = isqrt(s);
    proof {
        super::arc::lemma_isqrt_unique(s as int, r as int);
    }
    Some(r)
}

/// The length (nm) of the polyline `prev -> run[0] -> run[1] -> ...`, when it fits.
fn polyline_len_nm(prev: Point, run: &Vec<Point>) -> (r: Option<u128>)
    ensures
        opt_len(r) == machine::run_len(prev, run@),
{
    let mut total: u128 = 0;
    let mut a = prev;
    let mut k: usize = 0;
    assert(run@.take(0) =~= Seq::<Point>::empty());
    while k < run.len()
        invariant
            k <= run.len(),
            machine::run_len(prev, run@.take(k as int)) == Some(total as int),
            a == (if k == 0 { prev } else { run@[k - 1] }),
        decreases run.len() - k,
    {
        let ghost t = run@.take(k + 1);
        proof {
            assert(t.drop_last() =~= run@.take(k as int));
            assert(t.last() == run@[k as int]);
            if k > 0 {
                assert(t[t.len() - 2] == run@[k - 1]);
            }
        }
        let l = match seg_len_nm(a, run[k]) {
            Some(l) => l,
            None => {
                proof {
                    lemma_run_len_none(prev, run@, k + 1);
                }
                return None;
            },
        };
        proof {
            super::arc::lemma_isqrt_unique(super::arc::seg_len2_nm(a, run@[k as int]), l as int);
        }
        total = match total.checked_add(l) {
            Some(v) => v,
            None => {
                proof {
                    lemma_run_len_none(prev, run@, k + 1);
                }
                return None;
            },
        };
        a = run[k];
        k += 1;
    }
    assert(run@.take(k as int) =~= run@);
    Some(total)
}

/// Once a prefix's length overflows, so does every longer prefix's.
proof fn lemma_run_len_none(prev: Point, run: Seq<Point>, k: int)
    requires
        0 <= k <= run.len(),
        machine::run_len(prev, run.take(k)) is None,
    ensures
        machine::run_len(prev, run) is None,
    decreases run.len() - k,
{
    if k < run.len() {
        let t = run.take(k + 1);
        assert(t.drop_last() =~= run.take(k));
        lemma_run_len_none(prev, run, k + 1);
    } else {
        assert(run.take(k) =~= run);
    }
}

/// Rounded quotient `num / den` for positive values.
fn div_round(num: u128, den: u128) -> (r: Option<u128>)
    requires
        den > 0,
    ensures
        opt_len(r) == machine::div_round_spec(num as int, den as int),
{
    let n = num.checked_add(den / 2)?;
    Some(n / den)
}

/// Width (µm) back-computed from filament advance: the extruded volume spread over the move at the
/// layer height. Volumetric E is volume already; linear E is scaled by the filament cross-section
/// π·d²/4 with π taken as 355/113. All lengths in 10⁻⁹ mm except `len_nm`.
fn formula_width(de: u128, lh: u128, len_nm: u128, d: u128, volumetric: bool) -> (r: Option<u128>)
    requires
        lh > 0,
        len_nm > 0,
    ensures
        opt_len(r) == machine::formula_width_spec(de as int, lh as int, len_nm as int, d as int, volumetric),
{
    if volumetric {
        let num = de.checked_mul(1_000_000_000)?;
        let den = lh.checked_mul(len_nm)?;
        assert(den > 0) by (nonlinear_arith)
            requires
                den == lh * len_nm,
                lh > 0,
                len_nm > 0,
        ;
        div_round(num, den)
    } else {
        let num = de.checked_mul(355)?.checked_mul(d)?.checked_mul(d)?;
        let den0 = lh.checked_mul(len_nm)?;
        assert(den0 > 0) by (nonlinear_arith)
            requires
                den0 == lh * len_nm,
                lh > 0,
                len_nm > 0,
        ;
        let den = den0.checked_mul(452_000_000_000)?;
        div_round(num, den)
    }
}

/// The points of `chords` that advance from the point before them (the first compared with
/// `prev`), so that no zero-length segment is emitted.
fn advancing_run(prev: Point, chords: &Vec<Point>) -> (run: Vec<Point>)
    ensures
        run@ == machine::advancing(prev, chords@),
        distinct_steps(seq![prev] + run@),
{
    let mut run: Vec<Point> = Vec::new();
    let mut last = prev;
    let mut k: usize = 0;
    assert(chords@.skip(0) =~= chords@);
    while k < chords.len()
        invariant
            k <= chords.len(),
            distinct_steps(seq![prev] + run@),
            last == (seq![prev] + run@).last(),
            run@ + machine::advancing(last, chords@.skip(k as int)) == machine::advancing(prev, chords@),
        decreases chords.len() - k,
    {
        let p = chords[k];
        let ghost rest = chords@.skip(k as int);
        assert(rest[0] == p);
        assert(rest.skip(1) =~= chords@.skip(k + 1));
        if p != last {
            let ghost before = seq![prev] + run@;
            let ghost r0 = run@;
            run.push(p);
            proof {
                assert(seq![prev] + run@ =~= before.push(p));
                assert forall|j: int, t: int| 0 <= j && t == j + 1 && t < (seq![prev] + run@).len() implies #[trigger] (
                seq![prev] + run@)[j] != #[trigger] (seq![prev] + run@)[t] by {
                    if t < before.len() {
                        assert(before[j] == (seq![prev] + run@)[j] && before[t] == (seq![prev] + run@)[t]);
                    }
                }
                assert(run@ + machine::advancing(p, chords@.skip(k + 1)) =~= r0 + machine::advancing(last, rest));
            }
            last = p;
        }
        k += 1;
    }
    assert(chords@.skip(k as int) =~= Seq::<Point>::empty());
    assert(run@ + Seq::<Point>::empty() =~= run@);
    run
}

/// The text of a command code: its letter, a `-` for a negative number, then the number's
/// magnitude in decimal, the number clamped to 64 bits.
pub open spec fn code_label(letter: u8, n: int) -> Seq<u8> {
    let c = if n > i64::MAX { i64::MAX as int } else if n < i64::MIN { i64::MIN as int } else { n };
    seq![letter] + (if c < 0 { seq![45u8] } else { Seq::<u8>::empty() }) + dec_digits(
        (if c >= 0 { c } else { -c }) as nat,
    )
}

impl Parser {
    /// The reader's state, as plain values.
    spec fn machine(&self) -> Machine {
        Machine {
            inch: self.inch,
            abs_e: self.abs_e,
            relative_xyz: self.relative_xyz,
            volumetric: self.volumetric,
            filament_d: self.filament_d,
            x: self.x,
            y: self.y,
            z: self.z,
            e_prev: self.e_prev,
            layer_height_hint: self.layer_height_hint,
            pending_layer_z_um: self.pending_layer_z_um,
            cur_role: self.cur_role,
            cur_role_known: self.cur_role_known,
            cur_role_raw: match self.cur_role_raw {
                Some(r) => Some(r@),
                None => None,
            },
            width_um: self.width_um,
            width_epoch: self.width_epoch,
            force_new_layer: self.force_new_layer,
            open: match self.open {
                Some(o) => Some(open_view(o)),
                None => None,
            },
            program: self.program@,
            fallback_role_moves: self.diag.fallback_role_moves,
            estimated_width_moves: self.diag.estimated_width_moves,
            zero_length_extrudes: self.diag.zero_length_extrudes,
            arcs_flattened: self.diag.arcs_flattened,
            skipped_g91_moves: self.diag.skipped_g91_moves,
            overflow_skips: self.diag.overflow_skips,
            unknown_roles: texts(self.diag.unknown_roles@),
            skipped_codes: texts(self.diag.skipped_codes@),
        }
    }

    spec fn inv(&self) -> bool {
        &&& in_pos(self.x as int)
        &&& in_pos(self.y as int)
        &&& in_pos(self.z as int)
        &&& -E_LIMIT <= self.e_prev <= E_LIMIT
        &&& 0 < self.filament_d <= POS_LIMIT
        &&& (self.layer_height_hint matches Some(h) ==> 0 < h <= POS_LIMIT)
        &&& (self.width_um matches Some(w) ==> w > 0)
        &&& layers_ok(self.program.layers@)
        &&& (self.open matches Some(o) ==> open_ok(o))
    }

    fn new() -> (p: Parser)
        ensures
            p.inv(),
            p.diag.lines == 0,
            p.machine() == machine::machine_start(),
    {
        let p = Parser {
            inch: false,
            abs_e: true,
            relative_xyz: false,
            volumetric: false,
            filament_d: DEFAULT_FILAMENT_D,
            x: 0,
            y: 0,
            z: 0,
            e_prev: 0,
            layer_height_hint: None,
            pending_layer_z_um: None,
            cur_role: None,
            cur_role_known: false,
            cur_role_raw: None,
            width_um: None,
            width_epoch: 0,
            force_new_layer: false,
            open: None,
            program: lo::Program::new(),
            diag: empty_diagnostics(),
        };
        assert(texts(p.diag.unknown_roles@) =~= Seq::<Seq<char>>::empty());
        assert(texts(p.diag.skipped_codes@) =~= Seq::<Seq<char>>::empty());
        p
    }

    /// One physical line (without its `\n`).
    fn line(&mut self, raw: &[u8])
        requires
            old(self).inv(),
        ensures
            final(self).inv(),
            final(self).machine() == machine::line_step(old(self).machine(), raw@),
            final(self).diag.lines == old(self).diag.lines,
    {
        proof {
            reveal(machine::line_step);
        }
        let mut end = raw.len();
        while end > 0 && raw[end - 1] == 13
            invariant
                end <= raw.len(),
                machine::without_cr(raw@, raw@.len() as int) == machine::without_cr(raw@, end as int),
            decreases end,
        {
            end -= 1;
        }
        let line = sub_bytes(raw, 0, end);
        assert(line@ =~= raw@.take(machine::without_cr(raw@, raw@.len() as int)));
        let (code, comment) = split_code_comment(&line);
        let ghost m1 = match split_from(line@, 0, Seq::empty(), 0).1 {
            Some(c) => machine::comment(old(self).machine(), c),
            None => old(self).machine(),
        };
        if let Some(c) = comment {
            self.comment(&c);
        }
        assert(self.machine() == m1);
        let (a, b) = trim_bounds(&code, 0, code.len());
        assert(code@.subrange(0, code@.len() as int) =~= code@);
        if a == b {
            return;
        }
        // Drop a trailing "*checksum".
        let mut stop = a;
        while stop < b && code[stop] != 42
            invariant
                a <= stop <= b,
                b <= code.len(),
                machine::checksum_at(code@, a as int, b as int) == machine::checksum_at(code@, stop as int, b as int),
            decreases b - stop,
        {
            stop += 1;
        }
        let code = sub_bytes(&code, a, stop);
        let words = lex_words(&code);
        if words.len() == 0 {
            return;
        }
        self.command(&words);
    }

    fn parse_mm(com: &[u8], from: usize) -> (r: Option<i128>)
        requires
            from <= com@.len(),
        ensures
            r matches Some(v) ==> -NUM_MAX <= v <= NUM_MAX,
            match r {
                Some(v) => machine::comment_number(com@, from as int) == Some(v as int),
                None => machine::comment_number(com@, from as int) is None,
            },
    {
        let (a, b) = trim_bounds(com, from, com.len());
        parse_number(com, a, b)
    }

    fn comment(&mut self, com: &[u8])
        requires
            old(self).inv(),
        ensures
            final(self).inv(),
            final(self).machine() == machine::comment(old(self).machine(), com@),
            final(self).diag.lines == old(self).diag.lines,
    {
        proof {
            reveal(machine::comment);
        }
        let n = com.len();
        if starts_with(com, &[59, 84, 89, 80, 69, 58]) {
            self.set_role(com, 6);
        } else if starts_with(com, &[59, 32, 70, 69, 65, 84, 85, 82, 69, 58]) {
            self.set_role(com, 10);
        } else if eq_bytes(com, &[59, 76, 65, 89, 69, 82, 95, 67, 72, 65, 78, 71, 69]) || eq_bytes(
            com,
            &[59, 32, 67, 72, 65, 78, 71, 69, 95, 76, 65, 89, 69, 82],
        ) || starts_with(com, &[59, 76, 65, 89, 69, 82, 58]) {
            // A layer boundary flushes the layer AND clears the role, so an untyped extrude on the
            // new layer is a recorded fallback rather than a silent inherit.
            self.force_new_layer = true;
            self.cur_role = None;
            self.cur_role_known = false;
            self.cur_role_raw = None;
        } else if starts_with(com, &[59, 90, 58]) || starts_with(com, &[59, 32, 90, 95, 72, 69, 73, 71, 72, 84, 58]) {
            let from: usize = if starts_with(com, &[59, 90, 58]) { 3 } else { 11 };
            if let Some(mm) = Self::parse_mm(com, from) {
                self.z = mm;
                self.pending_layer_z_um = mm_to_um(mm);
            }
        } else if starts_with(com, &[59, 72, 69, 73, 71, 72, 84, 58]) || starts_with(
            com,
            &[59, 32, 76, 65, 89, 69, 82, 95, 72, 69, 73, 71, 72, 84, 58],
        ) || starts_with(com, &[59, 76, 97, 121, 101, 114, 32, 104, 101, 105, 103, 104, 116, 58]) {
            let from: usize = if starts_with(com, &[59, 72, 69, 73, 71, 72, 84, 58]) {
                8
            } else if starts_with(com, &[59, 32, 76, 65, 89, 69, 82, 95, 72, 69, 73, 71, 72, 84, 58]) {
                15
            } else {
                14
            };
            if let Some(mm) = Self::parse_mm(com, from) {
                if mm > 0 {
                    self.layer_height_hint = Some(mm);
                }
            }
        } else if starts_with(com, &[59, 87, 73, 68, 84, 72, 58]) || starts_with(
            com,
            &[59, 32, 76, 73, 78, 69, 95, 87, 73, 68, 84, 72, 58],
        ) {
            let from: usize = if starts_with(com, &[59, 87, 73, 68, 84, 72, 58]) { 7 } else { 13 };
            if let Some(mm) = Self::parse_mm(com, from) {
                if let Some(w) = mm_to_um(mm) {
                    // A non-positive width comment is malformed; ignore it so extruding toolpaths
                    // always carry a positive width.
                    let same = match self.width_um {
                        Some(cur) => cur == w,
                        None => false,
                    };
                    if w > 0 && !same {
                        self.width_um = Some(w);
                        self.width_epoch = if self.width_epoch < u64::MAX { self.width_epoch + 1 } else { self.width_epoch };
                    }
                }
            }
        }
        // Any other comment is ignored.
    }

    fn set_role(&mut self, com: &[u8], from: usize)
        requires
            old(self).inv(),
            from <= com@.len(),
        ensures
            final(self).inv(),
            final(self).machine() == machine::set_role(old(self).machine(), com@, from as int),
            final(self).diag.lines == old(self).diag.lines,
    {
        let (a, b) = trim_bounds(com, from, com.len());
        let value = sub_bytes(com, a, b);
        match classify_role(&value) {
            Some(rk) => {
                self.cur_role = Some(rk);
                self.cur_role_known = true;
            },
            None => {
                self.cur_role = Some(RegionKind::Perimeter);
                self.cur_role_known = false;
            },
        }
        self.cur_role_raw = Some(value);
    }

    /// The role for an extruding move, recording a diagnostic when it is a guessed fallback.
    fn consume_role(&mut self) -> (r: RegionKind)
        requires
            old(self).inv(),
        ensures
            final(self).inv(),
            final(self).machine() == machine::role_noted(old(self).machine()),
            r == machine::move_role(old(self).machine()),
            final(self).diag.lines == old(self).diag.lines,
            final(self).open == old(self).open,
            final(self).program == old(self).program,
            final(self).width_um == old(self).width_um,
            final(self).width_epoch == old(self).width_epoch,
    {
        if self.cur_role_known {
            if let Some(rk) = self.cur_role {
                return rk;
            }
        }
        self.diag.fallback_role_moves = bump(self.diag.fallback_role_moves);
        let ghost b = match self.machine().cur_role_raw {
            Some(r) => r,
            None => machine::no_type_label(),
        };
        let label = match &self.cur_role_raw {
            Some(raw) => text_of(raw.as_slice()),
            None => {
                let marker: [u8; 11] = [60, 110, 111, 32, 59, 84, 89, 80, 69, 58, 62];
                assert(marker@ =~= machine::no_type_label());
                text_of(&marker)
            },
        };
        assert(label@ == label_text(b));
        note_text(&mut self.diag.unknown_roles, label);
        RegionKind::Perimeter
    }

    /// Record a command code that changes no state: its text (the letter, then the number
    /// clamped to 64 bits, in decimal) joins the skipped codes.
    fn record_skipped(&mut self, letter: u8, n: i128)
        requires
            old(self).inv(),
        ensures
            final(self).inv(),
            final(self).machine() == machine::code_skipped(old(self).machine(), letter, n as int),
            final(self).diag.lines == old(self).diag.lines,
    {
        let ghost n0 = n;
        // The code number as a 64-bit integer, saturating.
        let n: i128 = if n > 9_223_372_036_854_775_807 {
            9_223_372_036_854_775_807
        } else if n < -9_223_372_036_854_775_808 {
            -9_223_372_036_854_775_808
        } else {
            n
        };
        let mut label: Vec<u8> = Vec::new();
        label.push(letter);
        if n < 0 {
            label.push(45);
        }
        let mag: u128 = (if n >= 0 { n } else { -n }) as u128;
        push_dec(&mut label, mag);
        assert(label@ =~= code_label(letter, n0 as int));
        let text = text_of(label.as_slice());
        assert(text@ == label_text(label@));
        note_text(&mut self.diag.skipped_codes, text);
    }

    fn command(&mut self, words: &Vec<(u8, Option<i128>)>)
        requires
            old(self).inv(),
            forall|k: int| 0 <= k < words@.len() ==> word_ok(#[trigger] words@[k]),
        ensures
            final(self).inv(),
            final(self).machine() == machine::command(
                old(self).machine(),
                words@.map_values(|w: (u8, Option<i128>)| word_view(w)),
            ),
            final(self).diag.lines == old(self).diag.lines,
    {
        proof {
            reveal(machine::command);
        }
        let ghost ws = words@.map_values(|w: (u8, Option<i128>)| word_view(w));
        let mut k: usize = 0;
        while k < words.len() && !(words[k].0 == 71 || words[k].0 == 77 || words[k].0 == 84)
            invariant
                k <= words.len(),
                ws == words@.map_values(|w: (u8, Option<i128>)| word_view(w)),
                machine::command_index(ws, 0) == machine::command_index(ws, k as int),
            decreases words.len() - k,
        {
            assert(ws[k as int].0 == words@[k as int].0);
            k += 1;
        }
        proof {
            if k < words.len() {
                assert(ws[k as int].0 == words@[k as int].0);
            }
        }
        if k == words.len() {
            return;
        }
        let cl = words[k].0;
        let cv = match words[k].1 {
            Some(v) => v,
            None => {
                return;
            },
        };
        let n = round_units(cv);
        let f = self.fields(words);
        if cl == 71 {
            if n == 0 || n == 1 {
                self.do_move(&f);
            } else if n == 2 {
                self.do_arc(&f, false);
            } else if n == 3 {
                self.do_arc(&f, true);
            } else if n == 92 {
                if let Some(e) = f.e {
                    self.e_prev = e;
                }
                if let Some(x) = f.x {
                    self.x = x;
                }
                if let Some(y) = f.y {
                    self.y = y;
                }
                if let Some(z) = f.z {
                    self.z = z;
                }
            } else if n == 20 {
                self.inch = true;
            } else if n == 21 {
                self.inch = false;
            } else if n == 90 {
                self.relative_xyz = false;
            } else if n == 91 {
                self.relative_xyz = true;
            } else if n == 17 || n == 18 || n == 19 || n == 10 || n == 11 {
                // Plane select and firmware retract: no geometry.
            } else {
                self.record_skipped(cl, n);
            }
        } else if cl == 77 && n == 82 {
            self.abs_e = true;
        } else if cl == 77 && n == 83 {
            self.abs_e = false;
        } else if cl == 77 && n == 200 {
            if let Some(d) = f.d {
                if d > 0 {
                    self.volumetric = true;
                    self.filament_d = d;
                } else {
                    self.volumetric = false;
                }
            }
        } else {
            self.record_skipped(cl, n);
        }
    }

    fn fields(&self, words: &Vec<(u8, Option<i128>)>) -> (f: Fields)
        requires
            forall|k: int| 0 <= k < words@.len() ==> word_ok(#[trigger] words@[k]),
        ensures
            fields_ok(f),
            fields_view(f) == machine::fields_of(words@.map_values(|w: (u8, Option<i128>)| word_view(w)), self.inch),
    {
        let ghost wv = words@.map_values(|w: (u8, Option<i128>)| word_view(w));
        let mut f = Fields { x: None, y: None, z: None, e: None, d: None, i: None, j: None, r: None };
        let mut k: usize = 0;
        assert(wv.take(0) =~= Seq::<(u8, Option<int>)>::empty());
        while k < words.len()
            invariant
                k <= words.len(),
                fields_ok(f),
                forall|t: int| 0 <= t < words@.len() ==> word_ok(#[trigger] words@[t]),
                wv == words@.map_values(|w: (u8, Option<i128>)| word_view(w)),
                fields_view(f) == machine::fields_of(wv.take(k as int), self.inch),
            decreases words.len() - k,
        {
            let (l, vo) = words[k];
            assert(words@[k as int] == (l, vo));
            proof {
                assert(wv.take(k + 1).drop_last() =~= wv.take(k as int));
                assert(wv.take(k + 1).last() == word_view((l, vo)));
            }
            if let Some(v) = vo {
                let sv = scale(v, self.inch);
                if l == 88 {
                    f.x = Some(sv);
                } else if l == 89 {
                    f.y = Some(sv);
                } else if l == 90 {
                    f.z = Some(sv);
                } else if l == 69 {
                    f.e = Some(sv);
                } else if l == 73 {
                    f.i = Some(sv);
                } else if l == 74 {
                    f.j = Some(sv);
                } else if l == 82 {
                    f.r = Some(sv);
                } else if l == 68 {
                    f.d = Some(v);
                }
            }
            k += 1;
        }
        assert(wv.take(k as int) =~= wv);
        f
    }

    /// Consume a move's E field into the modal baseline and return the extrusion delta.
    fn take_de(&mut self, e: Option<i128>) -> (de: i128)
        requires
            old(self).inv(),
            opt_in_pos(e),
        ensures
            final(self).inv(),
            (final(self).machine(), de as int) == machine::take_de(old(self).machine(), e),
            -2 * E_LIMIT <= de <= 2 * E_LIMIT,
            final(self).diag == old(self).diag,
            final(self).open == old(self).open,
            final(self).program == old(self).program,
            final(self).x == old(self).x,
            final(self).y == old(self).y,
            final(self).width_um == old(self).width_um,
            final(self).layer_height_hint == old(self).layer_height_hint,
            final(self).filament_d == old(self).filament_d,
    {
        match e {
            Some(e) => {
                if self.abs_e {
                    let d = e - self.e_prev;
                    self.e_prev = e;
                    d
                } else {
                    let s = self.e_prev + e;
                    self.e_prev = if s > E_LIMIT {
                        E_LIMIT
                    } else if s < -E_LIMIT {
                        -E_LIMIT
                    } else {
                        s
                    };
                    e
                }
            },
            None => 0,
        }
    }

    fn width_for(&mut self, de: i128, len_nm: Option<u128>) -> (w: i64)
        requires
            old(self).inv(),
            de > 0,
            de <= 2 * E_LIMIT,
        ensures
            final(self).inv(),
            final(self).machine() == machine::width_noted(old(self).machine()),
            w == machine::width_for(old(self).machine(), de as int, opt_len(len_nm)),
            w > 0,
            final(self).diag.lines == old(self).diag.lines,
            final(self).open == old(self).open,
            final(self).program == old(self).program,
    {
        if let Some(w) = self.width_um {
            return w;
        }
        self.diag.estimated_width_moves = bump(self.diag.estimated_width_moves);
        if let Some(lh) = self.layer_height_hint {
            if let Some(len) = len_nm {
                if len > 0 {
                    let r = formula_width(de as u128, lh as u128, len, self.filament_d as u128, self.volumetric);
                    if let Some(w) = r {
                        if 0 < w && w < 9_000_000_000_000_000_000 {
                            return w as i64;
                        }
                    }
                }
            }
        }
        NOMINAL_WIDTH_UM
    }

    /// Open a new layer only on a marker or the first extrusion; otherwise continue the current
    /// layer, so a travel Z-hop never opens a spurious layer.
    fn open_layer(&mut self, extrude_z: i128)
        requires
            old(self).inv(),
            in_pos(extrude_z as int),
        ensures
            final(self).inv(),
            final(self).machine() == machine::open_layer(old(self).machine(), extrude_z as int),
            final(self).open is Some,
            final(self).x == old(self).x,
            final(self).y == old(self).y,
            final(self).z == old(self).z,
            final(self).diag.lines == old(self).diag.lines,
            final(self).width_um == old(self).width_um,
            final(self).width_epoch == old(self).width_epoch,
            final(self).layer_height_hint == old(self).layer_height_hint,
            final(self).filament_d == old(self).filament_d,
    {
        proof {
            reveal(machine::open_layer);
            reveal(machine::flush);
        }
        if self.open.is_none() || self.force_new_layer {
            self.flush_layer();
            let z_um = match self.pending_layer_z_um.take() {
                Some(z) => z,
                None => match mm_to_um(extrude_z) {
                    Some(z) => z,
                    None => 0,
                },
            };
            let toolpaths: Vec<Toolpath> = Vec::new();
            assert(toolpaths@.map_values(|t: Toolpath| t@) =~= Seq::<lo::ToolpathView>::empty());
            self.open = Some(OpenLayer { z_um, toolpaths, cur: None });
            self.force_new_layer = false;
        }
    }

    fn push_segment(&mut self, kind: SegmentKind, width_um: i64, prev: Point, target: Point, de: i128)
        requires
            old(self).inv(),
            prev != target,
            -2 * E_LIMIT <= de <= 2 * E_LIMIT,
            if kind is Extrude {
                width_um > 0
            } else {
                width_um == 0
            },
        ensures
            final(self).inv(),
            final(self).machine() == machine::push_segment(old(self).machine(), kind, width_um, prev, target, de as int),
            final(self).open is Some <==> old(self).open is Some,
            final(self).diag.lines == old(self).diag.lines,
            final(self).width_um == old(self).width_um,
            final(self).width_epoch == old(self).width_epoch,
            final(self).layer_height_hint == old(self).layer_height_hint,
            final(self).filament_d == old(self).filament_d,
            final(self).x == old(self).x,
            final(self).y == old(self).y,
            final(self).z == old(self).z,
    {
        proof {
            reveal(machine::push_segment);
        }
        let epoch = match kind {
            SegmentKind::Travel => 0,
            SegmentKind::Extrude(_) => self.width_epoch,
        };
        let mut layer = match self.open.take() {
            Some(l) => l,
            None => {
                return;
            },
        };
        // Continue the current toolpath only if it ends where this segment starts and kind,
        // width-epoch and the effective width all match.
        let continues = match &layer.cur {
            Some(c) => c.kind == kind && c.epoch == epoch && width_close(c.width_um, width_um)
                && c.points[c.points.len() - 1] == prev,
            None => false,
        };
        let ghost ov = open_view(layer);
        if continues {
            let mut c = layer.cur.take().unwrap();
            let ghost before = c.points@;
            assert(before.last() == prev);
            c.points.push(target);
            c.flow = flow_add(c.flow, de);
            proof {
                assert(c.points@ == before.push(target));
                assert forall|j: int, k: int| 0 <= j && k == j + 1 && k < c.points@.len() implies #[trigger] c.points@[j]
                    != #[trigger] c.points@[k] by {
                    if k < before.len() {
                        assert(before[j] == c.points@[j] && before[k] == c.points@[k]);
                    }
                }
            }
            layer.cur = Some(c);
            assert(open_view(layer) == (ov.0, ov.1, Some((ov.2.unwrap().0, ov.2.unwrap().1, ov.2.unwrap().2, ov.2.unwrap().3.push(target), machine::flow_add(ov.2.unwrap().4, de as int)))));
        } else {
            if let Some(c) = layer.cur.take() {
                let t = finish_tp(c);
                let ghost before = layer.toolpaths@;
                layer.toolpaths.push(t);
                assert(layer.toolpaths@ == before.push(t));
                assert(layer.toolpaths@.map_values(|t: Toolpath| t@) =~= machine::close_cur(ov.1, ov.2));
                assert(toolpaths_ok(layer.toolpaths@)) by {
                    assert forall|k: int| 0 <= k < layer.toolpaths@.len() implies toolpath_ok(
                        #[trigger] layer.toolpaths@[k],
                    ) by {
                        if k < before.len() {
                            assert(before[k] == layer.toolpaths@[k]);
                        }
                    }
                }
            }
            assert(layer.toolpaths@.map_values(|t: Toolpath| t@) =~= machine::close_cur(ov.1, ov.2));
            let points = vec![prev, target];
            assert(points@.len() == 2);
            assert(points@ =~= seq![prev, target]);
            let flow = flow_add(0, de);
            layer.cur = Some(CurTp { kind, width_um, epoch, points, flow });
        }
        self.open = Some(layer);
    }

    fn flush_layer(&mut self)
        requires
            old(self).inv(),
        ensures
            final(self).inv(),
            final(self).machine() == machine::flush(old(self).machine()),
            final(self).open is None,
            final(self).diag.lines == old(self).diag.lines,
            final(self).width_um == old(self).width_um,
            final(self).width_epoch == old(self).width_epoch,
            final(self).layer_height_hint == old(self).layer_height_hint,
            final(self).filament_d == old(self).filament_d,
            final(self).pending_layer_z_um == old(self).pending_layer_z_um,
            final(self).force_new_layer == old(self).force_new_layer,
            final(self).x == old(self).x,
            final(self).y == old(self).y,
            final(self).z == old(self).z,
    {
        proof {
            reveal(machine::flush);
        }
        let mut layer = match self.open.take() {
            Some(l) => l,
            None => {
                return;
            },
        };
        let ghost ov = open_view(layer);
        let ghost tv = machine::close_cur(ov.1, ov.2);
        if let Some(c) = layer.cur.take() {
            let t = finish_tp(c);
            let ghost before = layer.toolpaths@;
            layer.toolpaths.push(t);
            assert(layer.toolpaths@ == before.push(t));
            assert(layer.toolpaths@.map_values(|t: Toolpath| t@) =~= tv);
            assert(toolpaths_ok(layer.toolpaths@)) by {
                assert forall|k: int| 0 <= k < layer.toolpaths@.len() implies toolpath_ok(
                    #[trigger] layer.toolpaths@[k],
                ) by {
                    if k < before.len() {
                        assert(before[k] == layer.toolpaths@[k]);
                    }
                }
            }
        }
        assert(layer.toolpaths@.map_values(|t: Toolpath| t@) =~= tv);
        if layer.toolpaths.len() > 0 {
            let l = lo::Layer { z_um: layer.z_um, toolpaths: layer.toolpaths };
            let ghost before = self.program.layers@;
            self.program.layers.push(l);
            assert(self.program.layers@ == before.push(l));
            assert(self.program@ =~= old(self).program@.push((ov.0, tv)));
            assert(layers_ok(self.program.layers@)) by {
                assert forall|i: int| 0 <= i < self.program.layers@.len() implies (#[trigger] self.program.layers@[i]).toolpaths@.len()
                    > 0 && toolpaths_ok(self.program.layers@[i].toolpaths@) by {
                    if i < before.len() {
                        assert(before[i] == self.program.layers@[i]);
                    }
                }
            }
        }
    }

    #[verifier::spinoff_prover]
    #[verifier::rlimit(50)]
    fn do_move(&mut self, f: &Fields)
        requires
            old(self).inv(),
            fields_ok(*f),
        ensures
            final(self).inv(),
            final(self).machine() == machine::do_move(old(self).machine(), fields_view(*f)),
            final(self).diag.lines == old(self).diag.lines,
    {
        proof {
            reveal(machine::do_move);
        }
        if self.relative_xyz {
            // A skipped move changes no state, including the E baseline.
            self.diag.skipped_g91_moves = bump(self.diag.skipped_g91_moves);
            return;
        }
        let nx = match f.x {
            Some(v) => v,
            None => self.x,
        };
        let ny = match f.y {
            Some(v) => v,
            None => self.y,
        };
        let nz = match f.z {
            Some(v) => v,
            None => self.z,
        };
        // Overflow guards come before E is consumed, and the previous position must be
        // representable: no phantom origin.
        let (px, py) = match (mm_to_um(self.x), mm_to_um(self.y)) {
            (Some(a), Some(b)) => (a, b),
            _ => {
                self.diag.overflow_skips = bump(self.diag.overflow_skips);
                return;
            },
        };
        let (tx, ty) = match (mm_to_um(nx), mm_to_um(ny)) {
            (Some(a), Some(b)) => (a, b),
            _ => {
                self.diag.overflow_skips = bump(self.diag.overflow_skips);
                return;
            },
        };
        let prev = Point::new(px, py);
        let target = Point::new(tx, ty);
        let len_nm = move_len_nm(self.x, self.y, nx, ny);
        let de = self.take_de(f.e);
        self.deposit_segment(de, nz, prev, target, len_nm);
        self.x = nx;
        self.y = ny;
        self.z = nz;
    }

    /// Deposit the segment `prev -> target` of a move with extrusion delta `de` and length
    /// `len_nm`, decided on rounded microns.
    fn deposit_segment(&mut self, de: i128, nz: i128, prev: Point, target: Point, len_nm: Option<u128>)
        requires
            old(self).inv(),
            -2 * E_LIMIT <= de <= 2 * E_LIMIT,
            in_pos(nz as int),
        ensures
            final(self).inv(),
            final(self).machine() == machine::segment_step(old(self).machine(), de as int, nz as int, prev, target, opt_len(len_nm)),
            final(self).diag.lines == old(self).diag.lines,
            final(self).x == old(self).x,
            final(self).y == old(self).y,
            final(self).z == old(self).z,
    {
        proof {
            reveal(machine::segment_step);
        }
        let same_point = prev.x == target.x && prev.y == target.y;
        assert(same_point == (prev == target));
        if de > EPS_E && !same_point {
            self.open_layer(nz);
            let width = self.width_for(de, len_nm);
            let role = self.consume_role();
            self.push_segment(SegmentKind::Extrude(role), width, prev, target, de);
        } else if de > EPS_E {
            // Extruding but no XY move (prime / unretract): advance state, emit nothing.
            self.diag.zero_length_extrudes = bump(self.diag.zero_length_extrudes);
        } else if !same_point && self.open.is_some() {
            self.push_segment(SegmentKind::Travel, 0, prev, target, 0);
        }
    }

    /// A G2 (clockwise) / G3 (counter-clockwise) arc, flattened to chord segments.
    #[verifier::spinoff_prover]
    #[verifier::rlimit(50)]
    fn do_arc(&mut self, f: &Fields, ccw: bool)
        requires
            old(self).inv(),
            fields_ok(*f),
        ensures
            final(self).inv(),
            final(self).machine() == machine::do_arc(old(self).machine(), fields_view(*f), ccw),
            final(self).diag.lines == old(self).diag.lines,
    {
        proof {
            reveal(machine::do_arc);
        }
        if self.relative_xyz {
            self.diag.skipped_g91_moves = bump(self.diag.skipped_g91_moves);
            return;
        }
        let nx = match f.x {
            Some(v) => v,
            None => self.x,
        };
        let ny = match f.y {
            Some(v) => v,
            None => self.y,
        };
        let nz = match f.z {
            Some(v) => v,
            None => self.z,
        };
        let (px, py) = match (mm_to_um(self.x), mm_to_um(self.y)) {
            (Some(a), Some(b)) => (a, b),
            _ => {
                self.diag.overflow_skips = bump(self.diag.overflow_skips);
                return;
            },
        };
        let (tx, ty) = match (mm_to_um(nx), mm_to_um(ny)) {
            (Some(a), Some(b)) => (a, b),
            _ => {
                self.diag.overflow_skips = bump(self.diag.overflow_skips);
                return;
            },
        };
        let prev = Point::new(px, py);
        let target = Point::new(tx, ty);
        let ghost m0 = self.machine();
        let de = self.take_de(f.e);
        let ghost m1 = self.machine();
        assert((m1, de as int) == machine::take_de(m0, f.e));
        let chords = Self::arc_chords(prev, target, f, ccw);
        self.diag.arcs_flattened = bump(self.diag.arcs_flattened);
        let ghost counted = Machine { arcs_flattened: machine::bumped(m1.arcs_flattened), ..m1 };
        assert(self.machine() == counted);
        let run = advancing_run(prev, &chords);
        self.deposit_run(de, nz, prev, &run);
        let ghost m2 = self.machine();
        assert(m2 == machine::run_step(counted, de as int, nz as int, prev, machine::advancing(prev, machine::arc_points(fields_view(*f), prev, target, ccw))));
        self.x = nx;
        self.y = ny;
        self.z = nz;
        assert(self.machine() == Machine { x: nx, y: ny, z: nz, ..m2 });
    }

    /// The chord points of an arc move (the straight chord `[target]` without a centre).
    fn arc_chords(prev: Point, target: Point, f: &Fields, ccw: bool) -> (chords: Vec<Point>)
        requires
            fields_ok(*f),
        ensures
            chords@ == machine::arc_points(fields_view(*f), prev, target, ccw),
    {
        proof {
            reveal(machine::arc_points);
        }
        // The centre, in nanometres. I/J are offsets from the current point (a missing one is 0);
        // R computes the centre.
        let center: Option<(i128, i128)> = if f.i.is_some() || f.j.is_some() {
            let io: i128 = match f.i {
                Some(v) => v,
                None => 0,
            };
            let jo: i128 = match f.j {
                Some(v) => v,
                None => 0,
            };
            let ic: i128 = if io >= 0 { io / 1000 } else { -((-io) / 1000) };
            let jc: i128 = if jo >= 0 { jo / 1000 } else { -((-jo) / 1000) };
            Some((prev.x as i128 * 1000 + ic, prev.y as i128 * 1000 + jc))
        } else if let Some(r) = f.r {
            arc_center_from_r(prev, target, r, ccw)
        } else {
            None
        };
        match center {
            Some((cx, cy)) => flatten_arc(prev, target, cx, cy, ccw),
            None => vec![target],
        }
    }

    /// Deposit the advancing points `run` of an arc move from `prev` with extrusion delta `de`.
    fn deposit_run(&mut self, de: i128, nz: i128, prev: Point, run: &Vec<Point>)
        requires
            old(self).inv(),
            -2 * E_LIMIT <= de <= 2 * E_LIMIT,
            in_pos(nz as int),
            distinct_steps(seq![prev] + run@),
        ensures
            final(self).inv(),
            final(self).machine() == machine::run_step(old(self).machine(), de as int, nz as int, prev, run@),
            final(self).diag.lines == old(self).diag.lines,
            final(self).x == old(self).x,
            final(self).y == old(self).y,
            final(self).z == old(self).z,
    {
        proof {
            reveal(machine::run_step);
        }
        if run.len() == 0 {
            if de > EPS_E {
                self.diag.zero_length_extrudes = bump(self.diag.zero_length_extrudes);
            }
        } else if de > EPS_E {
            self.open_layer(nz);
            let len = polyline_len_nm(prev, run);
            let width = self.width_for(de, len);
            let role = self.consume_role();
            self.push_run(SegmentKind::Extrude(role), width, prev, run, de);
        } else if self.open.is_some() {
            self.push_run(SegmentKind::Travel, 0, prev, run, 0);
        }
    }

    /// Push the segments `prev -> run[0] -> run[1] -> ...`; the E delta `de` goes with the last.
    fn push_run(&mut self, kind: SegmentKind, width_um: i64, prev: Point, run: &Vec<Point>, de: i128)
        requires
            old(self).inv(),
            -2 * E_LIMIT <= de <= 2 * E_LIMIT,
            distinct_steps(seq![prev] + run@),
            if kind is Extrude {
                width_um > 0
            } else {
                width_um == 0
            },
        ensures
            final(self).inv(),
            final(self).machine() == machine::push_run(old(self).machine(), kind, width_um, prev, run@, de as int),
            final(self).diag.lines == old(self).diag.lines,
            final(self).x == old(self).x,
            final(self).y == old(self).y,
            final(self).z == old(self).z,
    {
        let mut rp = prev;
        let mut k: usize = 0;
        assert(run@.take(0) =~= Seq::<Point>::empty());
        proof {
            reveal(machine::push_run);
        }
        while k < run.len()
            invariant
                k <= run.len(),
                self.inv(),
                -2 * E_LIMIT <= de <= 2 * E_LIMIT,
                self.machine() == machine::push_run(
                    old(self).machine(),
                    kind,
                    width_um,
                    prev,
                    run@.take(k as int),
                    if k == run.len() { de as int } else { 0 },
                ),
                self.diag.lines == old(self).diag.lines,
                self.x == old(self).x,
                self.y == old(self).y,
                self.z == old(self).z,
                distinct_steps(seq![prev] + run@),
                rp == (seq![prev] + run@)[k as int],
                if kind is Extrude {
                    width_um > 0
                } else {
                    width_um == 0
                },
            decreases run.len() - k,
        {
            let p = run[k];
            assert((seq![prev] + run@)[k + 1] == p);
            proof {
                reveal(machine::push_run);
                let t = run@.take(k + 1);
                assert(t.drop_last() =~= run@.take(k as int));
                assert(t.last() == p);
                if k > 0 {
                    assert(t[t.len() - 2] == run@[k - 1]);
                    assert((seq![prev] + run@)[k as int] == run@[k - 1]);
                }
            }
            let d: i128 = if k + 1 == run.len() { de } else { 0 };
            self.push_segment(kind, width_um, rp, p, d);
            rp = p;
            k += 1;
        }
        assert(run@.take(k as int) =~= run@);
    }

    fn finish(&mut self) -> (r: ParseReport)
        requires
            old(self).inv(),
        ensures
            r.program@ == machine::flush(old(self).machine()).program,
            diag_counts(r.diagnostics, machine::flush(old(self).machine())),
            texts_recorded(r.diagnostics, machine::flush(old(self).machine())),
            r.diagnostics.lines == old(self).diag.lines,
            r.diagnostics.layers == r.program.layers@.len(),
            layers_ok(r.program.layers@),
            count_toolpaths(r.program.layers@) <= usize::MAX ==> r.diagnostics.extruding_toolpaths
                == lo::count_extruding_layers(r.program.layers@) && r.diagnostics.extruding_toolpaths
                + r.diagnostics.travel_toolpaths == count_toolpaths(r.program.layers@),
    {
        let lines = self.diag.lines;
        self.flush_layer();
        let ghost flushed = self.machine().program;
        let mut diag = empty_diagnostics();
        std::mem::swap(&mut diag, &mut self.diag);
        let mut program = lo::Program::new();
        std::mem::swap(&mut program, &mut self.program);
        assert(program@ == flushed);
        diag.lines = lines;
        diag.layers = program.layers.len();
        let mut ext: u128 = 0;
        let mut trav: u128 = 0;
        let mut li: usize = 0;
        while li < program.layers.len()
            invariant
                li <= program.layers.len(),
                ext == lo::count_extruding_layers(program.layers@.take(li as int)),
                ext + trav == count_toolpaths(program.layers@.take(li as int)),
                ext + trav <= li * 0x1_0000_0000_0000_0000,
            decreases program.layers.len() - li,
        {
            let tps = &program.layers[li].toolpaths;
            let mut k: usize = 0;
            proof {
                assert(program.layers@.take(li + 1).drop_last() =~= program.layers@.take(li as int));
            }
            while k < tps.len()
                invariant
                    k <= tps.len(),
                    li < program.layers.len(),
                    tps == &program.layers@[li as int].toolpaths,
                    ext == lo::count_extruding_layers(program.layers@.take(li as int)) + lo::count_extruding(
                        tps@.take(k as int),
                    ),
                    ext + trav == count_toolpaths(program.layers@.take(li as int)) + k,
                    ext + trav <= li * 0x1_0000_0000_0000_0000 + k,
                decreases tps.len() - k,
            {
                proof {
                    assert(tps@.take(k + 1).drop_last() =~= tps@.take(k as int));
                    assert(li * 0x1_0000_0000_0000_0000 + k + 1 <= 0xFFFF_FFFF_FFFF_FFFF_FFFF_FFFF_FFFF_FFFF)
                        by (nonlinear_arith)
                        requires
                            li < 0xFFFF_FFFF_FFFF_FFFF,
                            k < 0xFFFF_FFFF_FFFF_FFFF,
                    ;
                }
                if tps[k].kind.extrudes() {
                    ext += 1;
                } else {
                    trav += 1;
                }
                k += 1;
            }
            assert(tps@.take(k as int) =~= tps@);
            assert(li * 0x1_0000_0000_0000_0000 + k <= (li + 1) * 0x1_0000_0000_0000_0000) by (nonlinear_arith)
                requires
                    k < 0x1_0000_0000_0000_0000,
            ;
            li += 1;
        }
        assert(program.layers@.take(li as int) =~= program.layers@);
        diag.extruding_toolpaths = if ext <= usize::MAX as u128 { ext as usize } else { usize::MAX };
        diag.travel_toolpaths = if trav <= usize::MAX as u128 { trav as usize } else { usize::MAX };
        ParseReport { program, diagnostics: diag }
    }
}

/// Parse untrusted G-code into a low-level program. Never panics.
///
/// Every returned toolpath has at least two points and no zero-length segment; extruding
/// toolpaths have a positive width and travel toolpaths zero width; no layer is empty; and the
/// diagnostics count the lines (`\n`-separated pieces), the layers and the extruding and travel
/// toolpaths of the program exactly (the last two whenever the total fits in `usize`, as it does for
/// any program held in memory). The fallback-role labels and the skipped command codes are the
/// texts the reading state recorded ([`texts_recorded`]); each extruding toolpath carries the E
/// commanded along it.
pub fn parse(gcode: &str) -> (r: ParseReport)
    requires
        gcode.spec_bytes().len() <= isize::MAX,
    ensures
        r.program@ == machine::gcode_plan(gcode.spec_bytes()),
        diag_counts(r.diagnostics, machine::gcode_final(gcode.spec_bytes())),
        texts_recorded(r.diagnostics, machine::gcode_final(gcode.spec_bytes())),
        r.diagnostics.lines == count_byte(gcode.spec_bytes(), 10) + 1,
        r.diagnostics.layers == r.program.layers@.len(),
        layers_ok(r.program.layers@),
        count_toolpaths(r.program.layers@) <= usize::MAX ==> r.diagnostics.extruding_toolpaths
            == lo::count_extruding_layers(r.program.layers@) && r.diagnostics.extruding_toolpaths
            + r.diagnostics.travel_toolpaths == count_toolpaths(r.program.layers@),
{
    let bytes = gcode.as_bytes();
    let mut p = Parser::new();
    let mut start: usize = 0;
    let mut i: usize = 0;
    while i < bytes.len()
        invariant
            start <= i <= bytes@.len(),
            bytes@.len() <= isize::MAX,
            p.inv(),
            p.diag.lines == count_byte(bytes@.take(i as int), 10),
            machine::scan_lines(p.machine(), bytes@, start as int, i as int) == machine::scan_lines(
                machine::machine_start(),
                bytes@,
                0,
                0,
            ),
        decreases bytes.len() - i,
    {
        proof {
            assert(bytes@.take(i + 1).drop_last() =~= bytes@.take(i as int));
            lemma_count_byte_le(bytes@.take(i as int), 10);
        }
        if bytes[i] == 10 {
            let raw = sub_bytes(bytes, start, i);
            p.diag.lines = p.diag.lines + 1;
            p.line(&raw);
            start = i + 1;
        }
        i += 1;
    }
    proof {
        assert(bytes@.take(i as int) =~= bytes@);
        lemma_count_byte_le(bytes@, 10);
    }
    let raw = sub_bytes(bytes, start, bytes.len());
    p.diag.lines = p.diag.lines + 1;
    p.line(&raw);
    p.finish()
}

} // verus!
